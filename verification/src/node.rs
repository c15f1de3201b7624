//! The tree node: a sum of an empty node, a leaf holding a short UTF-8
//! chunk, and an internal node holding a `ChildArray` of summaries and
//! shared child handles.
//!
//! The mathematical model of a subtree is `node_text`, the concatenation
//! of its leaf chunks as a scalar sequence.  Well-formedness
//! (`node_wf_lo`) captures the balance invariant (all leaves at equal
//! depth), the fan-out bounds, and summary consistency (each slot's info
//! equals the metrics of the child's text).

use vstd::prelude::*;

verus! {

use std::sync::Arc;
use crate::child_array::{ChildArray, Metric, prefix_metric, lemma_prefix_metric_mono};
use crate::text_info::{TextInfo, byte_len, line_breaks, line_start, chars_in_bytes,
    lemma_byte_len_additive, lemma_line_breaks_additive, lemma_byte_len_bounds,
    lemma_line_breaks_bounds, lemma_char_width, lemma_byte_len_take_mono, lemma_cib_concat_hi,
    lemma_cib_concat_lo, lemma_cib_bounds, lemma_ls_concat_lo, lemma_ls_concat_hi,
    lemma_line_start_bounds, str_char_to_byte, str_byte_to_char, str_line_to_char,
    count_line_breaks, lemma_cib_inverse, lemma_byte_len_take_succ};

broadcast use lemma_byte_len_additive, lemma_line_breaks_additive;


pub const MAX_CHILDREN: usize = 16;

pub const MIN_CHILDREN: usize = 8;

pub const MAX_BYTES: usize = 334;

pub const MIN_BYTES: usize = 167;

#[derive(Debug)]
pub enum Node {
    Empty,
    Leaf(String),
    Internal(ChildArray),
}

/// Relies on `alloc::sync::Arc::clone`: the new handle refers to the same
/// allocation, so it carries the same value.
#[verifier::external_body]
pub fn arc_clone(a: &Arc<Node>) -> (r: Arc<Node>)
    ensures
        r == *a,
{
    a.clone()
}

/// Concatenation of the texts of a sequence of nodes.
pub open spec fn seq_text(ns: Seq<Arc<Node>>) -> Seq<char>
    decreases ns, ns.len(), 1int,
{
    if ns.len() == 0 {
        Seq::empty()
    } else {
        seq_text(ns.drop_last()) + node_text(*ns.last())
    }
}

/// The text a subtree stores: the concatenation of its leaf chunks.
pub open spec fn node_text(n: Node) -> Seq<char>
    decreases n, 0int, 0int,
{
    match n {
        Node::Empty => Seq::empty(),
        Node::Leaf(s) => s@,
        Node::Internal(ca) => seq_text(ca.nodes@),
    }
}

/// Distance from this node down to its leaves (0 at a leaf).
pub open spec fn node_depth(n: Node) -> int
    decreases n,
{
    match n {
        Node::Empty => 0,
        Node::Leaf(_) => 0,
        Node::Internal(ca) => 1 + if ca.nodes@.len() > 0 {
            node_depth(*ca.nodes@[0])
        } else {
            0
        },
    }
}

/// Well-formedness of a subtree whose own fan-out lower bound is `lo`:
/// parallel arrays agree, fan-out within `[lo, MAX_CHILDREN]`, summaries
/// are exact, total bytes fit the machine, all children are at one and
/// the same depth, and every proper descendant obeys the strict
/// `MIN_CHILDREN` lower bound.
pub open spec fn node_wf_lo(n: Node, lo: int) -> bool
    decreases n,
{
    match n {
        Node::Empty => true,
        Node::Leaf(_) => true,
        Node::Internal(ca) => {
            &&& ca.info@.len() == ca.nodes@.len()
            &&& lo <= ca.nodes@.len() <= MAX_CHILDREN
            &&& byte_len(seq_text(ca.nodes@)) <= usize::MAX
            &&& (forall|i: int|
                0 <= i < ca.nodes@.len() ==> node_wf_lo(
                    #[trigger] *ca.nodes@[i],
                    MIN_CHILDREN as int,
                ))
            &&& (forall|i: int| 0 <= i < ca.nodes@.len() ==> !(#[trigger] *ca.nodes@[i] is Empty))
            &&& (forall|i: int|
                0 <= i < ca.nodes@.len() ==> (#[trigger] ca.info@[i]).summarizes(
                    node_text(*ca.nodes@[i]),
                ))
            &&& (forall|i: int|
                0 <= i < ca.nodes@.len() ==> node_depth(#[trigger] *ca.nodes@[i]) == node_depth(
                    *ca.nodes@[0],
                ))
        },
    }
}

/// Well-formedness for a non-root node.
pub open spec fn node_wf(n: Node) -> bool {
    node_wf_lo(n, MIN_CHILDREN as int)
}

/// Well-formedness for a root: an internal root needs only two children.
pub open spec fn root_wf(n: Node) -> bool {
    node_wf_lo(n, 2)
}

pub proof fn lemma_wf_weaken(n: Node, lo1: int, lo2: int)
    requires
        node_wf_lo(n, lo1),
        lo2 <= lo1,
    ensures
        node_wf_lo(n, lo2),
{
}

pub proof fn lemma_seq_text_split(ns: Seq<Arc<Node>>, i: int)
    requires
        0 <= i <= ns.len(),
    ensures
        seq_text(ns) == seq_text(ns.take(i)) + seq_text(ns.skip(i)),
    decreases ns.len(),
{
    if ns.len() == 0 {
        assert(ns.take(i) =~= ns);
        assert(ns.skip(i) =~= ns);
        assert(seq_text(ns) =~= seq_text(ns.take(i)) + seq_text(ns.skip(i)));
    } else if i == ns.len() {
        assert(ns.take(i) =~= ns);
        assert(ns.skip(i) =~= Seq::empty());
        assert(seq_text(ns) =~= seq_text(ns.take(i)) + seq_text(ns.skip(i)));
    } else {
        let dl = ns.drop_last();
        lemma_seq_text_split(dl, i);
        assert(ns.take(i) =~= dl.take(i));
        assert(ns.skip(i).drop_last() =~= dl.skip(i));
        assert(*ns.skip(i).last() == *ns.last());
        assert(seq_text(ns) =~= seq_text(ns.take(i)) + seq_text(ns.skip(i)));
    }
}

/// A one-node sequence's text is that node's text.
pub proof fn lemma_seq_text_one(ns: Seq<Arc<Node>>, i: int)
    requires
        0 <= i < ns.len(),
    ensures
        seq_text(ns.skip(i).take(1)) == node_text(*ns[i]),
{
    let s = ns.skip(i);
    assert(s.take(1).len() == 1);
    assert(s.take(1).drop_last() =~= Seq::empty());
    assert(seq_text(s.take(1).drop_last()) == Seq::<char>::empty());
    assert(seq_text(s.take(1)) == seq_text(s.take(1).drop_last()) + node_text(*s.take(1).last()));
    assert(*s.take(1).last() == *ns[i]);
    assert(seq_text(s.take(1)) =~= node_text(*ns[i]));
}

/// The text decomposes around child `i`: a prefix, the child's own text,
/// and a suffix.
pub proof fn lemma_text_decompose(ns: Seq<Arc<Node>>, i: int)
    requires
        0 <= i < ns.len(),
    ensures
        seq_text(ns) == seq_text(ns.take(i)) + node_text(*ns[i]) + seq_text(ns.skip(i + 1)),
    decreases 0int,
{
    lemma_seq_text_split(ns, i);
    lemma_seq_text_split(ns.skip(i), 1);
    lemma_seq_text_one(ns, i);
    assert(ns.skip(i).skip(1) =~= ns.skip(i + 1));
    assert(seq_text(ns) =~= seq_text(ns.take(i)) + node_text(*ns[i]) + seq_text(ns.skip(i + 1)));
}

/// The text of child `i`, as a function of the node sequence (convenient
/// in proofs).
pub open spec fn child_text(ns: Seq<Arc<Node>>, i: int) -> Seq<char> {
    node_text(*ns[i])
}

/// The depth of child `i`, as a function of the node sequence.
pub open spec fn child_depth(ns: Seq<Arc<Node>>, i: int) -> int {
    node_depth(*ns[i])
}

/// The child count of an internal node (0 for the other variants).
pub open spec fn fanout_of(n: Node) -> int {
    match n {
        Node::Internal(ca) => ca.nodes@.len() as int,
        _ => 0,
    }
}

/// `s` with `t` spliced in at scalar index `i`.
pub open spec fn spliced(s: Seq<char>, i: int, t: Seq<char>) -> Seq<char> {
    s.take(i) + t + s.skip(i)
}

/// Concatenating node sequences concatenates their texts.
pub proof fn lemma_seq_text_cat(a: Seq<Arc<Node>>, b: Seq<Arc<Node>>)
    ensures
        seq_text(a + b) == seq_text(a) + seq_text(b),
{
    lemma_seq_text_split(a + b, a.len() as int);
    assert((a + b).take(a.len() as int) =~= a);
    assert((a + b).skip(a.len() as int) =~= b);
}

/// In a consistent array the prefix sums of the summaries are exactly the
/// metrics of the concatenated prefix texts.
pub proof fn lemma_prefix_metrics(ca: ChildArray, k: int)
    requires
        ca.info@.len() == ca.nodes@.len(),
        forall|i: int|
            0 <= i < ca.nodes@.len() ==> (#[trigger] ca.info@[i]).summarizes(
                node_text(*ca.nodes@[i]),
            ),
        0 <= k <= ca.nodes@.len(),
    ensures
        prefix_metric(Metric::Bytes, ca.info@, k) == byte_len(seq_text(ca.nodes@.take(k))),
        prefix_metric(Metric::Chars, ca.info@, k) == seq_text(ca.nodes@.take(k)).len(),
        prefix_metric(Metric::LineBreaks, ca.info@, k) == line_breaks(seq_text(ca.nodes@.take(k))),
    decreases k,
{
    if k == 0 {
        assert(ca.nodes@.take(0) =~= Seq::empty());
        assert(line_breaks(Seq::empty()) == 0);
    } else {
        lemma_prefix_metrics(ca, k - 1);
        let pre = ca.nodes@.take(k - 1);
        let cur = ca.nodes@.take(k);
        assert(cur.drop_last() =~= pre);
        assert(*cur.last() == *ca.nodes@[k - 1]);
        broadcast use lemma_byte_len_additive, lemma_line_breaks_additive;

        assert(seq_text(cur) == seq_text(pre) + node_text(*ca.nodes@[k - 1]));
        assert(byte_len(seq_text(pre) + node_text(*ca.nodes@[k - 1])) == byte_len(seq_text(pre))
            + byte_len(node_text(*ca.nodes@[k - 1])));
        assert(line_breaks(seq_text(pre) + node_text(*ca.nodes@[k - 1])) == line_breaks(
            seq_text(pre),
        ) + line_breaks(node_text(*ca.nodes@[k - 1])));
        assert(ca.info@[k - 1].summarizes(node_text(*ca.nodes@[k - 1])));
    }
}

/// The metrics of the whole array, from `lemma_prefix_metrics` at the
/// full length.
pub proof fn lemma_full_metrics(ca: ChildArray)
    requires
        ca.info@.len() == ca.nodes@.len(),
        forall|i: int|
            0 <= i < ca.nodes@.len() ==> (#[trigger] ca.info@[i]).summarizes(
                node_text(*ca.nodes@[i]),
            ),
    ensures
        prefix_metric(Metric::Bytes, ca.info@, ca.nodes@.len() as int) == byte_len(
            seq_text(ca.nodes@),
        ),
        prefix_metric(Metric::Chars, ca.info@, ca.nodes@.len() as int) == seq_text(
            ca.nodes@,
        ).len(),
        prefix_metric(Metric::LineBreaks, ca.info@, ca.nodes@.len() as int) == line_breaks(
            seq_text(ca.nodes@),
        ),
{
    lemma_prefix_metrics(ca, ca.nodes@.len() as int);
    assert(ca.nodes@.take(ca.nodes@.len() as int) =~= ca.nodes@);
}

/// Everything a conversion needs about child `i` of a consistent array:
/// the text decomposition, the correspondence of summary prefix sums with
/// prefix-text metrics, and the child's own well-formedness and bounds.
pub proof fn lemma_internal_setup(ca: ChildArray, i: int)
    requires
        node_wf_lo(Node::Internal(ca), 0),
        0 <= i < ca.nodes@.len(),
    ensures
        seq_text(ca.nodes@) == seq_text(ca.nodes@.take(i)) + child_text(ca.nodes@, i) + seq_text(
            ca.nodes@.skip(i + 1),
        ),
        prefix_metric(Metric::Bytes, ca.info@, i) == byte_len(seq_text(ca.nodes@.take(i))),
        prefix_metric(Metric::Chars, ca.info@, i) == seq_text(ca.nodes@.take(i)).len(),
        prefix_metric(Metric::LineBreaks, ca.info@, i) == line_breaks(
            seq_text(ca.nodes@.take(i)),
        ),
        prefix_metric(Metric::Bytes, ca.info@, i + 1) == prefix_metric(Metric::Bytes, ca.info@, i)
            + byte_len(child_text(ca.nodes@, i)),
        prefix_metric(Metric::Chars, ca.info@, i + 1) == prefix_metric(Metric::Chars, ca.info@, i)
            + child_text(ca.nodes@, i).len(),
        prefix_metric(Metric::LineBreaks, ca.info@, i + 1) == prefix_metric(
            Metric::LineBreaks,
            ca.info@,
            i,
        ) + line_breaks(child_text(ca.nodes@, i)),
        ca.info@[i].summarizes(child_text(ca.nodes@, i)),
        node_wf_lo(*ca.nodes@[i], 0),
        byte_len(child_text(ca.nodes@, i)) <= usize::MAX,
        ca.sums_fit(),
        prefix_metric(Metric::Bytes, ca.info@, ca.nodes@.len() as int) == byte_len(
            seq_text(ca.nodes@),
        ),
        prefix_metric(Metric::Chars, ca.info@, ca.nodes@.len() as int) == seq_text(
            ca.nodes@,
        ).len(),
        prefix_metric(Metric::LineBreaks, ca.info@, ca.nodes@.len() as int) == line_breaks(
            seq_text(ca.nodes@),
        ),
        0 <= byte_len(seq_text(ca.nodes@.take(i))),
        0 <= byte_len(seq_text(ca.nodes@.skip(i + 1))),
        0 <= line_breaks(seq_text(ca.nodes@.skip(i + 1))),
        byte_len(child_text(ca.nodes@, i)) <= byte_len(seq_text(ca.nodes@)),
{
    broadcast use lemma_byte_len_additive, lemma_line_breaks_additive;

    lemma_text_decompose(ca.nodes@, i);
    lemma_prefix_metrics(ca, i);
    lemma_prefix_metrics(ca, i + 1);
    lemma_wf_sums_fit(ca);
    lemma_full_metrics(ca);
    assert(ca.nodes@.take(i + 1).drop_last() =~= ca.nodes@.take(i));
    assert(*ca.nodes@.take(i + 1).last() == *ca.nodes@[i]);
    assert(seq_text(ca.nodes@.take(i + 1)) == seq_text(ca.nodes@.take(i)) + child_text(
        ca.nodes@,
        i,
    ));
    assert(node_wf_lo(*ca.nodes@[i], MIN_CHILDREN as int));
    assert(node_wf_lo(*ca.nodes@[i], 0));
    lemma_byte_len_bounds(seq_text(ca.nodes@.take(i)));
    lemma_byte_len_bounds(seq_text(ca.nodes@.skip(i + 1)));
    lemma_line_breaks_bounds(seq_text(ca.nodes@.skip(i + 1)));
    lemma_line_breaks_bounds(seq_text(ca.nodes@.take(i)));
    assert(byte_len(
        seq_text(ca.nodes@.take(i)) + child_text(ca.nodes@, i) + seq_text(ca.nodes@.skip(i + 1)),
    ) == byte_len(seq_text(ca.nodes@.take(i)) + child_text(ca.nodes@, i)) + byte_len(
        seq_text(ca.nodes@.skip(i + 1)),
    ));
    assert(byte_len(seq_text(ca.nodes@.take(i)) + child_text(ca.nodes@, i)) == byte_len(
        seq_text(ca.nodes@.take(i)),
    ) + byte_len(child_text(ca.nodes@, i)));
}

/// A well-formed internal node's summary sums all fit in `usize`.
pub proof fn lemma_wf_sums_fit(ca: ChildArray)
    requires
        node_wf_lo(Node::Internal(ca), 0),
    ensures
        ca.sums_fit(),
{
    lemma_full_metrics(ca);
    lemma_byte_len_bounds(seq_text(ca.nodes@));
    lemma_line_breaks_bounds(seq_text(ca.nodes@));
}

impl Node {
    pub open spec fn text(self) -> Seq<char> {
        node_text(self)
    }

    pub fn new() -> (r: Node)
        ensures
            r is Empty,
            node_text(r) == Seq::<char>::empty(),
            root_wf(r),
    {
        Node::Empty
    }

    /// The summary of this subtree: zero for an empty node, a scan for a
    /// leaf, the combined slot infos for an internal node.
    pub fn text_info(&self) -> (r: TextInfo)
        requires
            node_wf_lo(*self, 0),
            byte_len(node_text(*self)) <= usize::MAX,
        ensures
            r.summarizes(node_text(*self)),
    {
        match self {
            Node::Empty => TextInfo::new(),
            Node::Leaf(s) => TextInfo::from_str(s.as_str()),
            Node::Internal(ca) => {
                proof {
                    lemma_wf_sums_fit(*ca);
                    lemma_full_metrics(*ca);
                }
                ca.combined_info()
            },
        }
    }

    /// Total number of bytes in the subtree.
    pub fn byte_count(&self) -> (r: usize)
        requires
            node_wf_lo(*self, 0),
            byte_len(node_text(*self)) <= usize::MAX,
        ensures
            r == byte_len(node_text(*self)),
    {
        self.text_info().bytes
    }

    /// Total number of chars in the subtree.
    pub fn char_count(&self) -> (r: usize)
        requires
            node_wf_lo(*self, 0),
            byte_len(node_text(*self)) <= usize::MAX,
        ensures
            r == node_text(*self).len(),
    {
        self.text_info().chars
    }

    /// Total number of line breaks in the subtree.
    pub fn line_break_count(&self) -> (r: usize)
        requires
            node_wf_lo(*self, 0),
            byte_len(node_text(*self)) <= usize::MAX,
        ensures
            r == line_breaks(node_text(*self)),
    {
        self.text_info().line_breaks
    }

    /// Returns the byte index of the given char.
    pub fn char_to_byte(&self, char_idx: usize) -> (r: usize)
        requires
            node_wf_lo(*self, 0),
            byte_len(node_text(*self)) <= usize::MAX,
            char_idx <= node_text(*self).len(),
        ensures
            r == byte_len(node_text(*self).take(char_idx as int)),
        decreases *self,
    {
        match self {
            Node::Empty => {
                proof {
                    assert(node_text(*self).take(0) =~= Seq::empty());
                }
                0
            },
            Node::Leaf(s) => str_char_to_byte(s.as_str(), char_idx),
            Node::Internal(ca) => {
                let ghost whole = node_text(*self);
                if char_idx == 0 {
                    proof {
                        assert(node_text(*self).take(0) =~= Seq::empty());
                    }
                    return 0;
                }
                proof {
                    lemma_wf_sums_fit(*ca);
                    lemma_full_metrics(*ca);
                    if ca.nodes@.len() == 0 {
                        assert(prefix_metric(Metric::Chars, ca.info@, 0) == 0);
                    }
                }
                let (i, acc) = ca.search_combine_info(Metric::Chars, char_idx);
                let inf = ca.info[i];
                proof {
                    lemma_internal_setup(*ca, i as int);
                    lemma_prefix_metric_mono(Metric::Bytes, ca.info@, i + 1, ca.spec_len());
                }
                if char_idx == acc.chars + inf.chars {
                    proof {
                        assert(whole.take(char_idx as int) =~= seq_text(ca.nodes@.take(i as int))
                            + child_text(ca.nodes@, i as int));
                        assert(byte_len(
                            seq_text(ca.nodes@.take(i as int)) + child_text(ca.nodes@, i as int),
                        ) == byte_len(seq_text(ca.nodes@.take(i as int))) + byte_len(
                            child_text(ca.nodes@, i as int),
                        ));
                    }
                    acc.bytes + inf.bytes
                } else {
                    let k = char_idx - acc.chars;
                    let child: &Node = &ca.nodes[i];
                    let rb = child.char_to_byte(k);
                    proof {
                        let ghost pre = seq_text(ca.nodes@.take(i as int));
                        let ghost ct = child_text(ca.nodes@, i as int);
                        assert(whole.take(char_idx as int) =~= pre + ct.take(k as int));
                        assert(byte_len(pre + ct.take(k as int)) == byte_len(pre) + byte_len(
                            ct.take(k as int),
                        ));
                        lemma_byte_len_take_mono(ct, k as int, ct.len() as int);
                        assert(ct.take(ct.len() as int) =~= ct);
                    }
                    acc.bytes + rb
                }
            },
        }
    }

    /// Returns the char index of the given byte.
    pub fn byte_to_char(&self, byte_idx: usize) -> (r: usize)
        requires
            node_wf_lo(*self, 0),
            byte_len(node_text(*self)) <= usize::MAX,
            byte_idx <= byte_len(node_text(*self)),
        ensures
            r == chars_in_bytes(node_text(*self), byte_idx as int),
        decreases *self,
    {
        match self {
            Node::Empty => 0,
            Node::Leaf(s) => str_byte_to_char(s.as_str(), byte_idx),
            Node::Internal(ca) => {
                let ghost whole = node_text(*self);
                if byte_idx == 0 {
                    proof {
                        if whole.len() > 0 {
                            lemma_char_width(whole[0]);
                        }
                    }
                    return 0;
                }
                proof {
                    lemma_wf_sums_fit(*ca);
                    lemma_full_metrics(*ca);
                }
                let (i, acc) = ca.search_combine_info(Metric::Bytes, byte_idx);
                let inf = ca.info[i];
                let k = byte_idx - acc.bytes;
                proof {
                    lemma_internal_setup(*ca, i as int);
                }
                let child: &Node = &ca.nodes[i];
                let rc = child.byte_to_char(k);
                proof {
                    let ghost pre = seq_text(ca.nodes@.take(i as int));
                    let ghost ct = child_text(ca.nodes@, i as int);
                    let ghost post = seq_text(ca.nodes@.skip(i + 1));
                    assert(whole =~= pre + (ct + post));
                    lemma_cib_concat_hi(pre, ct + post, k as int);
                    lemma_cib_concat_lo(ct, post, k as int);
                    lemma_cib_bounds(ct, k as int);
                    lemma_prefix_metric_mono(Metric::Chars, ca.info@, i + 1, ca.spec_len());
                }
                acc.chars + rc
            },
        }
    }

    /// Returns the line index of the given char.
    pub fn char_to_line(&self, char_idx: usize) -> (r: usize)
        requires
            node_wf_lo(*self, 0),
            byte_len(node_text(*self)) <= usize::MAX,
            char_idx <= node_text(*self).len(),
        ensures
            r == line_breaks(node_text(*self).take(char_idx as int)),
        decreases *self,
    {
        match self {
            Node::Empty => {
                proof {
                    assert(node_text(*self).take(0) =~= Seq::empty());
                }
                0
            },
            Node::Leaf(s) => {
                let sub = s.as_str().substring_char(0, char_idx);
                proof {
                    assert(sub@ =~= s@.take(char_idx as int));
                    lemma_byte_len_bounds(s@);
                }
                count_line_breaks(sub)
            },
            Node::Internal(ca) => {
                let ghost whole = node_text(*self);
                if char_idx == 0 {
                    proof {
                        assert(node_text(*self).take(0) =~= Seq::empty());
                    }
                    return 0;
                }
                proof {
                    lemma_wf_sums_fit(*ca);
                    lemma_full_metrics(*ca);
                }
                let (i, acc) = ca.search_combine_info(Metric::Chars, char_idx);
                let inf = ca.info[i];
                let k = char_idx - acc.chars;
                proof {
                    lemma_internal_setup(*ca, i as int);
                }
                let child: &Node = &ca.nodes[i];
                let rl = child.char_to_line(k);
                proof {
                    let ghost pre = seq_text(ca.nodes@.take(i as int));
                    let ghost ct = child_text(ca.nodes@, i as int);
                    assert(whole.take(char_idx as int) =~= pre + ct.take(k as int));
                    assert(line_breaks(pre + ct.take(k as int)) == line_breaks(pre) + line_breaks(
                        ct.take(k as int),
                    ));
                    assert(ct.take(k as int) + ct.skip(k as int) =~= ct);
                    assert(line_breaks(ct.take(k as int) + ct.skip(k as int)) == line_breaks(
                        ct.take(k as int),
                    ) + line_breaks(ct.skip(k as int)));
                    lemma_line_breaks_bounds(ct.skip(k as int));
                    lemma_prefix_metric_mono(Metric::LineBreaks, ca.info@, i + 1, ca.spec_len());
                }
                acc.line_breaks + rl
            },
        }
    }

    /// Returns the char index of the start of the given line.
    pub fn line_to_char(&self, line_idx: usize) -> (r: usize)
        requires
            node_wf_lo(*self, 0),
            byte_len(node_text(*self)) <= usize::MAX,
            line_idx <= line_breaks(node_text(*self)),
        ensures
            r == line_start(node_text(*self), line_idx as int),
        decreases *self,
    {
        match self {
            Node::Empty => 0,
            Node::Leaf(s) => str_line_to_char(s.as_str(), line_idx),
            Node::Internal(ca) => {
                let ghost whole = node_text(*self);
                if line_idx == 0 {
                    return 0;
                }
                proof {
                    lemma_wf_sums_fit(*ca);
                    lemma_full_metrics(*ca);
                }
                let (i, acc) = ca.search_combine_info(Metric::LineBreaks, line_idx);
                let inf = ca.info[i];
                let k = line_idx - acc.line_breaks;
                proof {
                    lemma_internal_setup(*ca, i as int);
                }
                let child: &Node = &ca.nodes[i];
                let rc = child.line_to_char(k);
                proof {
                    let ghost pre = seq_text(ca.nodes@.take(i as int));
                    let ghost ct = child_text(ca.nodes@, i as int);
                    let ghost post = seq_text(ca.nodes@.skip(i + 1));
                    assert(whole =~= (pre + ct) + post);
                    assert(line_breaks(pre + ct) == line_breaks(pre) + line_breaks(ct));
                    lemma_ls_concat_lo(pre + ct, post, line_idx as int);
                    lemma_ls_concat_hi(pre, ct, line_idx as int);
                    lemma_line_start_bounds(ct, k as int);
                    lemma_prefix_metric_mono(Metric::Chars, ca.info@, i + 1, ca.spec_len());
                }
                acc.chars + rc
            },
        }
    }

    /// Returns the byte index of the start of the given line.
    pub fn line_to_byte(&self, line_idx: usize) -> (r: usize)
        requires
            node_wf_lo(*self, 0),
            byte_len(node_text(*self)) <= usize::MAX,
            line_idx <= line_breaks(node_text(*self)),
        ensures
            r == byte_len(node_text(*self).take(line_start(node_text(*self), line_idx as int))),
    {
        let c = self.line_to_char(line_idx);
        proof {
            lemma_line_start_bounds(node_text(*self), line_idx as int);
        }
        self.char_to_byte(c)
    }

    /// Returns the line index of the given byte.
    pub fn byte_to_line(&self, byte_idx: usize) -> (r: usize)
        requires
            node_wf_lo(*self, 0),
            byte_len(node_text(*self)) <= usize::MAX,
            byte_idx <= byte_len(node_text(*self)),
        ensures
            r == line_breaks(
                node_text(*self).take(chars_in_bytes(node_text(*self), byte_idx as int)),
            ),
    {
        let c = self.byte_to_char(byte_idx);
        proof {
            lemma_cib_bounds(node_text(*self), byte_idx as int);
        }
        self.char_to_line(c)
    }

    /// Inserts the text at the given char index.
    ///
    /// Returns a right-side residual node if the insertion would not fit
    /// within this node, and the byte position at which a grapheme seam
    /// may need repair, if any.
    pub fn insert(&mut self, char_pos: usize, text: &str) -> (r: (Option<Node>, Option<usize>))
        requires
            root_wf(*old(self)),
            char_pos <= node_text(*old(self)).len(),
            byte_len(node_text(*old(self))) + byte_len(text@) <= usize::MAX,
        ensures
            root_wf(*final(self)),
            !(*final(self) is Empty),
            node_depth(*final(self)) == node_depth(*old(self)),
            match r.0 {
                None => node_text(*final(self)) == spliced(
                    node_text(*old(self)),
                    char_pos as int,
                    text@,
                ),
                Some(res) => {
                    &&& node_text(*final(self)) + node_text(res) == spliced(
                        node_text(*old(self)),
                        char_pos as int,
                        text@,
                    )
                    &&& node_wf(res)
                    &&& !(res is Empty)
                    &&& node_depth(res) == node_depth(*old(self))
                },
            },
            r.0 is Some ==> node_wf(*final(self)),
            r.1 matches Some(b) ==> b <= byte_len(node_text(*old(self))) + byte_len(text@),
            r.0 is Some ==> residual_cause(*old(self), char_pos as int, text@),
            seam_boundary_ok(*final(self), r.0, r.1),
            *old(self) matches Node::Leaf(s0) ==> leaf_split_ok(
                spliced(s0@, char_pos as int, text@),
                *final(self),
                r.0,
            ) && leaf_seam_ok(
                s0@,
                char_pos as int,
                byte_len(spliced(s0@, char_pos as int, text@)),
                r.1,
            ),
    {
        if let Node::Empty = self {
            let t = text.to_owned();
            proof {
                assert(node_text(*old(self)).take(char_pos as int) =~= Seq::<char>::empty());
                assert(node_text(*old(self)).skip(char_pos as int) =~= Seq::<char>::empty());
                assert(spliced(node_text(*old(self)), char_pos as int, text@) =~= text@);
            }
            *self = Node::Leaf(t);
            return (None, None);
        }
        let (n2, residual, seam) = insert_rec(self, char_pos, text, Ghost(2int));
        *self = n2;
        (residual, seam)
    }
}



/// Replacing slot `i` by a consistent new child preserves well-formedness
/// and substitutes the child's text in the concatenation.
proof fn lemma_slot_update(ca: ChildArray, ca2: ChildArray, i: int, ninfo: TextInfo, lo: int)
    requires
        node_wf_lo(Node::Internal(ca), lo),
        0 <= i < ca.nodes@.len(),
        ca2.info@ == ca.info@.update(i, ninfo),
        ca2.nodes@.len() == ca.nodes@.len(),
        forall|j: int| #![trigger ca2.nodes@[j]] 0 <= j < ca2.nodes@.len() && j != i ==> *ca2.nodes@[j] == *ca.nodes@[j],
        node_wf_lo(*ca2.nodes@[i], MIN_CHILDREN as int),
        !(*ca2.nodes@[i] is Empty),
        node_depth(*ca2.nodes@[i]) == node_depth(*ca.nodes@[i]),
        ninfo.summarizes(node_text(*ca2.nodes@[i])),
        byte_len(seq_text(ca.nodes@.take(i))) + byte_len(node_text(*ca2.nodes@[i])) + byte_len(
            seq_text(ca.nodes@.skip(i + 1)),
        ) <= usize::MAX,
    ensures
        node_wf_lo(Node::Internal(ca2), lo),
        node_depth(Node::Internal(ca2)) == node_depth(Node::Internal(ca)),
        seq_text(ca2.nodes@) == seq_text(ca.nodes@.take(i)) + node_text(*ca2.nodes@[i])
            + seq_text(ca.nodes@.skip(i + 1)),
{
    let ns2 = ca2.nodes@;
    assert(ns2.take(i) =~= ca.nodes@.take(i));
    assert(ns2.skip(i + 1) =~= ca.nodes@.skip(i + 1));
    lemma_text_decompose(ns2, i);
    assert(node_depth(*ns2[0]) == node_depth(*ca.nodes@[0]));
    assert(byte_len(
        seq_text(ca.nodes@.take(i)) + node_text(*ca2.nodes@[i]) + seq_text(ca.nodes@.skip(i + 1)),
    ) == byte_len(seq_text(ca.nodes@.take(i))) + byte_len(node_text(*ca2.nodes@[i])) + byte_len(
        seq_text(ca.nodes@.skip(i + 1)),
    ));
    assert forall|j: int| 0 <= j < ns2.len() implies node_wf_lo(#[trigger] *ns2[j], MIN_CHILDREN as int)
        && !(*ns2[j] is Empty) && (ca2.info@[j]).summarizes(node_text(*ns2[j])) && node_depth(
        *ns2[j],
    ) == node_depth(*ns2[0]) by {
        if j != i {
            assert(*ns2[j] == *ca.nodes@[j]);
        }
    }
}

/// Inserting one consistent extra child at `p >= 1` preserves
/// well-formedness when there is room, splicing the child's text in.
proof fn lemma_slot_insert(ca2: ChildArray, ca3: ChildArray, p: int, rinfo: TextInfo, lo: int)
    requires
        node_wf_lo(Node::Internal(ca2), lo),
        ca2.nodes@.len() < MAX_CHILDREN,
        1 <= p <= ca2.nodes@.len(),
        ca3.info@ == ca2.info@.insert(p, rinfo),
        ca3.nodes@.len() == ca2.nodes@.len() + 1,
        forall|j: int| #![trigger ca3.nodes@[j]] 0 <= j < p ==> *ca3.nodes@[j] == *ca2.nodes@[j],
        forall|j: int| #![trigger ca3.nodes@[j]] p < j < ca3.nodes@.len() ==> *ca3.nodes@[j]
            == *ca2.nodes@[j - 1],
        node_wf_lo(*ca3.nodes@[p], MIN_CHILDREN as int),
        !(*ca3.nodes@[p] is Empty),
        node_depth(*ca3.nodes@[p]) == node_depth(*ca2.nodes@[0]),
        rinfo.summarizes(node_text(*ca3.nodes@[p])),
        byte_len(seq_text(ca2.nodes@)) + byte_len(node_text(*ca3.nodes@[p])) <= usize::MAX,
    ensures
        node_wf_lo(Node::Internal(ca3), lo),
        node_depth(Node::Internal(ca3)) == node_depth(Node::Internal(ca2)),
        seq_text(ca3.nodes@) == seq_text(ca2.nodes@.take(p)) + node_text(*ca3.nodes@[p])
            + seq_text(ca2.nodes@.skip(p)),
{
    let ns3 = ca3.nodes@;
    assert(ns3.take(p) =~= ca2.nodes@.take(p));
    assert(ns3.skip(p + 1) =~= ca2.nodes@.skip(p));
    lemma_text_decompose(ns3, p);
    lemma_seq_text_split(ca2.nodes@, p);
    assert(byte_len(seq_text(ca2.nodes@.take(p)) + seq_text(ca2.nodes@.skip(p))) == byte_len(
        seq_text(ca2.nodes@.take(p)),
    ) + byte_len(seq_text(ca2.nodes@.skip(p))));
    assert(byte_len(
        seq_text(ca2.nodes@.take(p)) + node_text(*ns3[p]) + seq_text(ca2.nodes@.skip(p)),
    ) == byte_len(seq_text(ca2.nodes@.take(p))) + byte_len(node_text(*ns3[p])) + byte_len(
        seq_text(ca2.nodes@.skip(p)),
    ));
    assert(node_depth(*ns3[0]) == node_depth(*ca2.nodes@[0]));
    assert forall|j: int| 0 <= j < ns3.len() implies node_wf_lo(#[trigger] *ns3[j], MIN_CHILDREN as int)
        && !(*ns3[j] is Empty) && (ca3.info@[j]).summarizes(node_text(*ns3[j])) && node_depth(
        *ns3[j],
    ) == node_depth(*ns3[0]) by {
        if j < p {
            assert(*ns3[j] == *ca2.nodes@[j]);
            assert(ca3.info@[j] == ca2.info@[j]);
        } else if j > p {
            assert(*ns3[j] == *ca2.nodes@[j - 1]);
            assert(ca3.info@[j] == ca2.info@[j - 1]);
        }
    }
}

/// Two halves of a consistent overfull slot sequence form two
/// well-formed internal nodes whose texts concatenate to the whole.
proof fn lemma_halves(lca: ChildArray, rca: ChildArray, all_n: Seq<Arc<Node>>, all_i: Seq<TextInfo>, d: int)
    requires
        lca.nodes@ + rca.nodes@ == all_n,
        lca.info@ + rca.info@ == all_i,
        all_i.len() == all_n.len(),
        lca.info@.len() == lca.nodes@.len(),
        rca.info@.len() == rca.nodes@.len(),
        MIN_CHILDREN <= lca.nodes@.len() <= MAX_CHILDREN,
        MIN_CHILDREN <= rca.nodes@.len() <= MAX_CHILDREN,
        forall|j: int| 0 <= j < all_n.len() ==> node_wf_lo(#[trigger] *all_n[j], MIN_CHILDREN as int),
        forall|j: int| 0 <= j < all_n.len() ==> !(#[trigger] *all_n[j] is Empty),
        forall|j: int| 0 <= j < all_n.len() ==> (#[trigger] all_i[j]).summarizes(
            node_text(*all_n[j]),
        ),
        forall|j: int| 0 <= j < all_n.len() ==> node_depth(#[trigger] *all_n[j]) == d,
        byte_len(seq_text(all_n)) <= usize::MAX,
    ensures
        node_wf(Node::Internal(lca)),
        node_wf(Node::Internal(rca)),
        seq_text(lca.nodes@) + seq_text(rca.nodes@) == seq_text(all_n),
        node_depth(Node::Internal(lca)) == 1 + d,
        node_depth(Node::Internal(rca)) == 1 + d,
{
    lemma_seq_text_cat(lca.nodes@, rca.nodes@);
    lemma_byte_len_bounds(seq_text(lca.nodes@));
    lemma_byte_len_bounds(seq_text(rca.nodes@));
    assert(byte_len(seq_text(lca.nodes@) + seq_text(rca.nodes@)) == byte_len(seq_text(lca.nodes@))
        + byte_len(seq_text(rca.nodes@)));
    assert forall|j: int| 0 <= j < lca.nodes@.len() implies node_wf_lo(
        #[trigger] *lca.nodes@[j],
        MIN_CHILDREN as int,
    ) && !(*lca.nodes@[j] is Empty) && (lca.info@[j]).summarizes(node_text(*lca.nodes@[j]))
        && node_depth(*lca.nodes@[j]) == d by {
        assert(*lca.nodes@[j] == *all_n[j]);
        assert(lca.info@[j] == all_i[j]);
    }
    assert forall|j: int| 0 <= j < rca.nodes@.len() implies node_wf_lo(
        #[trigger] *rca.nodes@[j],
        MIN_CHILDREN as int,
    ) && !(*rca.nodes@[j] is Empty) && (rca.info@[j]).summarizes(node_text(*rca.nodes@[j]))
        && node_depth(*rca.nodes@[j]) == d by {
        assert(*rca.nodes@[j] == *all_n[j + lca.nodes@.len()]);
        assert(rca.info@[j] == all_i[j + lca.info@.len()]);
    }
    assert(node_depth(*lca.nodes@[0]) == d);
    assert(node_depth(*rca.nodes@[0]) == d);
}


/// What a leaf insertion may hand back: a residual only on a byte
/// overflow, with both halves near the byte midpoint; no residual only
/// when the chunk fits or no interior scalar split near the midpoint
/// exists (the tolerated oversized leaf).
pub open spec fn leaf_split_ok(t: Seq<char>, left: Node, resid: Option<Node>) -> bool {
    match resid {
        Some(res) => {
            &&& byte_len(t) > MAX_BYTES
            &&& byte_len(node_text(left)) <= byte_len(t) - byte_len(t) / 2
            &&& byte_len(node_text(res)) <= byte_len(t) / 2 + 3
        },
        None => byte_len(t) <= MAX_BYTES || chars_in_bytes(t, byte_len(t) - byte_len(t) / 2) == 0
            || chars_in_bytes(t, byte_len(t) - byte_len(t) / 2) == t.len(),
    }
}

/// The seam hint a leaf insertion reports: the front of the chunk, its
/// back (as the new total byte length), or nothing for a strictly
/// interior insertion.
pub open spec fn leaf_seam_ok(
    t_old: Seq<char>,
    char_pos: int,
    total_bytes: int,
    sm: Option<usize>,
) -> bool {
    match sm {
        None => 0 < char_pos < t_old.len(),
        Some(b) => (char_pos == 0 && b == 0) || (char_pos > 0 && char_pos == t_old.len() && b
            == total_bytes),
    }
}

/// A residual is only ever produced by an actual overflow: a leaf grown
/// past `MAX_BYTES`, or a full internal node.
pub open spec fn residual_cause(n: Node, char_pos: int, ins: Seq<char>) -> bool {
    match n {
        Node::Empty => false,
        Node::Leaf(s) => byte_len(spliced(s@, char_pos, ins)) > MAX_BYTES,
        Node::Internal(ca) => ca.nodes@.len() == MAX_CHILDREN,
    }
}

/// `x` is a junction byte offset of what an insertion returned: of the
/// kept node, or of the residual shifted past the kept node's bytes.
pub open spec fn boundary_after(left: Node, resid: Option<Node>, x: int) -> bool {
    chunk_boundary(left, x) || (match resid {
        Some(res) => byte_len(node_text(left)) <= x && chunk_boundary(
            res,
            x - byte_len(node_text(left)),
        ),
        None => false,
    })
}

/// A reported seam byte addresses a junction between leaf chunks of what
/// the insertion returned.
pub open spec fn seam_boundary_ok(left: Node, resid: Option<Node>, sm: Option<usize>) -> bool {
    match sm {
        None => true,
        Some(b) => boundary_after(left, resid, b as int),
    }
}

/// Insertion into a leaf chunk: splice the text in; split near the byte
/// midpoint on a scalar boundary if the chunk overflows `MAX_BYTES`, or
/// tolerate an oversized leaf when no interior boundary exists.
#[verifier::rlimit(60)]
#[verifier::spinoff_prover]
fn insert_leaf(s: &str, char_pos: usize, ins: &str) -> (r: (Node, Option<Node>, Option<usize>))
    requires
        char_pos <= s@.len(),
        byte_len(s@) + byte_len(ins@) <= usize::MAX,
    ensures
        node_wf_lo(r.0, MIN_CHILDREN as int),
        !(r.0 is Empty),
        node_depth(r.0) == 0,
        match r.1 {
            None => node_text(r.0) == spliced(s@, char_pos as int, ins@),
            Some(res) => {
                &&& node_text(r.0) + node_text(res) == spliced(s@, char_pos as int, ins@)
                &&& node_wf(res)
                &&& !(res is Empty)
                &&& node_depth(res) == 0
            },
        },
        r.1 is Some ==> node_wf_lo(r.0, MIN_CHILDREN as int),
        r.2 matches Some(b) ==> b <= byte_len(s@) + byte_len(ins@),
        leaf_split_ok(spliced(s@, char_pos as int, ins@), r.0, r.1),
        leaf_seam_ok(s@, char_pos as int, byte_len(spliced(s@, char_pos as int, ins@)), r.2),
        seam_boundary_ok(r.0, r.1, r.2),
{
    let ghost target = spliced(s@, char_pos as int, ins@);
        proof {
            lemma_byte_len_bounds(s@);
        }
        let old_chars = s.unicode_len();
        let byte_pos = str_char_to_byte(s, char_pos);
        let old_bytes = s.len();
        let left_part = s.substring_char(0, char_pos);
        let mut newt = left_part.to_owned();
        newt.append(ins);
        let right_part = s.substring_char(char_pos, old_chars);
        newt.append(right_part);
        proof {
            assert(left_part@ =~= s@.take(char_pos as int));
            assert(right_part@ =~= s@.skip(char_pos as int));
            assert(newt@ =~= target);
            assert(byte_len(s@.take(char_pos as int) + ins@) == byte_len(
                s@.take(char_pos as int),
            ) + byte_len(ins@));
            assert(byte_len((s@.take(char_pos as int) + ins@) + s@.skip(char_pos as int))
                == byte_len(s@.take(char_pos as int) + ins@) + byte_len(
                s@.skip(char_pos as int),
            ));
            assert(s@.take(char_pos as int) + s@.skip(char_pos as int) =~= s@);
            assert(byte_len(s@.take(char_pos as int)) + byte_len(s@.skip(char_pos as int))
                == byte_len(s@));
            assert(byte_len(target) == byte_len(s@) + byte_len(ins@));
        }
        let new_bytes = newt.as_str().len();
        let seam = if byte_pos == 0 {
            Some(0usize)
        } else if byte_pos == old_bytes {
            Some(new_bytes)
        } else {
            None
        };
        proof {
            lemma_byte_len_take_mono(s@, char_pos as int, s@.len() as int);
            assert(s@.take(s@.len() as int) =~= s@);
            lemma_byte_len_bounds(target);
            // the seam byte discipline, via strict monotonicity of byte offsets
            lemma_byte_len_take_mono(s@, 0, char_pos as int);
            assert(s@.take(0) =~= Seq::<char>::empty());
            assert(char_pos > 0 ==> byte_pos > 0);
            assert(char_pos < s@.len() ==> byte_pos < byte_len(s@));
        }
        if new_bytes <= MAX_BYTES {
            return (Node::Leaf(newt), None, seam);
        }
        let split_target = new_bytes - new_bytes / 2;
        let new_chars = newt.as_str().unicode_len();
        let c = str_byte_to_char(newt.as_str(), split_target);
        proof {
            lemma_cib_bounds(newt@, split_target as int);
        }
        if c == 0 || c == new_chars {
            // no interior scalar boundary near the midpoint: tolerate
            // the oversized leaf
            return (Node::Leaf(newt), None, seam);
        }
        let lhalf = newt.as_str().substring_char(0, c).to_owned();
        let rhalf = newt.as_str().substring_char(c, new_chars).to_owned();
        proof {
            assert(lhalf@ =~= target.take(c as int));
            assert(rhalf@ =~= target.skip(c as int));
            assert(lhalf@ + rhalf@ =~= target);
            // both halves lie near the byte midpoint
            lemma_cib_inverse(target, split_target as int);
            assert(byte_len(lhalf@) <= split_target);
            lemma_byte_len_take_succ(target, c as int);
            lemma_char_width(target[c as int]);
            assert(byte_len(lhalf@) + byte_len(rhalf@) == byte_len(target));
            assert(byte_len(rhalf@) <= byte_len(target) / 2 + 3);
        }
        (Node::Leaf(lhalf), Some(Node::Leaf(rhalf)), seam)
}

/// Recursive insertion; `lo` is the fan-out lower bound this node itself
/// must keep (2 at the root, `MIN_CHILDREN` below it).
#[verifier::rlimit(100)]
#[verifier::spinoff_prover]
fn insert_rec(n: &Node, char_pos: usize, ins: &str, lo: Ghost<int>) -> (r: (
    Node,
    Option<Node>,
    Option<usize>,
))
    requires
        2 <= lo@ <= MIN_CHILDREN,
        node_wf_lo(*n, lo@),
        !(*n is Empty),
        char_pos <= node_text(*n).len(),
        byte_len(node_text(*n)) + byte_len(ins@) <= usize::MAX,
    ensures
        node_wf_lo(r.0, lo@),
        !(r.0 is Empty),
        node_depth(r.0) == node_depth(*n),
        match r.1 {
            None => node_text(r.0) == spliced(node_text(*n), char_pos as int, ins@),
            Some(res) => {
                &&& node_text(r.0) + node_text(res) == spliced(node_text(*n), char_pos as int, ins@)
                &&& node_wf(res)
                &&& !(res is Empty)
                &&& node_depth(res) == node_depth(*n)
            },
        },
        r.1 is Some ==> node_wf_lo(r.0, MIN_CHILDREN as int),
        r.2 matches Some(b) ==> b <= byte_len(node_text(*n)) + byte_len(ins@),
        r.1 is Some ==> residual_cause(*n, char_pos as int, ins@),
        seam_boundary_ok(r.0, r.1, r.2),
        *n matches Node::Leaf(s0) ==> leaf_split_ok(spliced(s0@, char_pos as int, ins@), r.0, r.1)
            && leaf_seam_ok(
            s0@,
            char_pos as int,
            byte_len(spliced(s0@, char_pos as int, ins@)),
            r.2,
        ),
    decreases *n, 1int,
{
    match n {
        Node::Empty => {
            proof {
                assert(false);
            }
            (Node::Empty, None, None)
        },
        Node::Leaf(s) => insert_leaf(s.as_str(), char_pos, ins),

        Node::Internal(ca) => insert_internal(n, ca, char_pos, ins, lo),
    }
}


/// The internal-node step of insertion: descend into the child holding
/// `char_pos`, refresh its slot, and attach any residual.
#[verifier::rlimit(100)]
#[verifier::spinoff_prover]
fn insert_internal(n: &Node, ca: &ChildArray, char_pos: usize, ins: &str, lo: Ghost<int>) -> (r: (
    Node,
    Option<Node>,
    Option<usize>,
))
    requires
        2 <= lo@ <= MIN_CHILDREN,
        *n == Node::Internal(*ca),
        node_wf_lo(*n, lo@),
        char_pos <= node_text(*n).len(),
        byte_len(node_text(*n)) + byte_len(ins@) <= usize::MAX,
    ensures
        node_wf_lo(r.0, lo@),
        !(r.0 is Empty),
        node_depth(r.0) == node_depth(*n),
        match r.1 {
            None => node_text(r.0) == spliced(node_text(*n), char_pos as int, ins@),
            Some(res) => {
                &&& node_text(r.0) + node_text(res) == spliced(node_text(*n), char_pos as int, ins@)
                &&& node_wf(res)
                &&& !(res is Empty)
                &&& node_depth(res) == node_depth(*n)
            },
        },
        r.1 is Some ==> node_wf_lo(r.0, MIN_CHILDREN as int),
        r.2 matches Some(b) ==> b <= byte_len(node_text(*n)) + byte_len(ins@),
        r.1 is Some ==> residual_cause(*n, char_pos as int, ins@),
        seam_boundary_ok(r.0, r.1, r.2),
    decreases *n, 0int,
{
    let ghost old_text = node_text(*n);
    let ghost target = spliced(node_text(*n), char_pos as int, ins@);
    proof {
        lemma_wf_sums_fit(*ca);
        lemma_full_metrics(*ca);
    }
    let (i, acc) = ca.search_combine_info(Metric::Chars, char_pos);
    let k = char_pos - acc.chars;
    proof {
        lemma_internal_setup(*ca, i as int);
        lemma_byte_len_bounds(seq_text(ca.nodes@.skip(i + 1)));
        lemma_byte_len_bounds(seq_text(ca.nodes@.take(i as int)));
    }
    let ghost pre = seq_text(ca.nodes@.take(i as int));
    let ghost ct = child_text(ca.nodes@, i as int);
    let ghost post = seq_text(ca.nodes@.skip(i + 1));
    proof {
        assert(old_text.take(char_pos as int) =~= pre + ct.take(k as int));
        assert(old_text.skip(char_pos as int) =~= ct.skip(k as int) + post);
        assert(target =~= pre + spliced(ct, k as int, ins@) + post);
        assert(byte_len(pre + spliced(ct, k as int, ins@) + post) == byte_len(
            pre + spliced(ct, k as int, ins@),
        ) + byte_len(post));
        assert(byte_len(pre + spliced(ct, k as int, ins@)) == byte_len(pre) + byte_len(
            spliced(ct, k as int, ins@),
        ));
        assert(byte_len(old_text) == byte_len(pre) + byte_len(ct) + byte_len(post));
        assert(ct.take(k as int) + ct.skip(k as int) =~= ct);
        assert(byte_len(ct.take(k as int) + ins@) == byte_len(ct.take(k as int))
            + byte_len(ins@));
        assert(byte_len((ct.take(k as int) + ins@) + ct.skip(k as int)) == byte_len(
            ct.take(k as int) + ins@,
        ) + byte_len(ct.skip(k as int)));
        assert(byte_len(ct.take(k as int)) + byte_len(ct.skip(k as int)) == byte_len(ct));
        assert(byte_len(spliced(ct, k as int, ins@)) == byte_len(ct) + byte_len(ins@));
    }
    let child: &Node = &ca.nodes[i];
    let (new_child, residual, child_seam) = insert_rec(
        child,
        k,
        ins,
        Ghost(MIN_CHILDREN as int),
    );
    let ghost ncv = new_child;
    proof {
        if residual is Some {
            lemma_byte_len_bounds(node_text(residual->0));
            lemma_byte_len_bounds(node_text(ncv));
            assert(byte_len(node_text(ncv) + node_text(residual->0)) == byte_len(
                node_text(ncv),
            ) + byte_len(node_text(residual->0)));
        } else {
            assert(node_text(ncv) == spliced(ct, k as int, ins@));
        }
        assert(node_wf_lo(ncv, 0));
        assert(byte_len(node_text(ncv)) <= usize::MAX);
    }
    let new_info = new_child.text_info();
    let mut ca2 = ca.clone();
    ca2.set(i, (new_info, Arc::new(new_child)));
    let seam = match child_seam {
        Some(b) => Some(acc.bytes + b),
        None => None,
    };
    let ghost ns2 = ca2.nodes@;
    proof {
        assert(*ns2[i as int] == ncv);
        lemma_slot_update(*ca, ca2, i as int, new_info, lo@);
        assert(seq_text(ns2) == pre + node_text(ncv) + post);
    }
    match residual {
        None => {
            proof {
                assert(seq_text(ns2) =~= target);
                if seam is Some {
                    let bc = child_seam->0;
                    assert(chunk_boundary(ncv, bc as int));
                    lemma_cb_lift(ns2, i as int, bc as int);
                    assert(ns2.take(i as int) =~= ca.nodes@.take(i as int));
                    assert(byte_len(seq_text(ns2.take(i as int))) == acc.bytes as int);
                    assert(chunk_boundary(Node::Internal(ca2), seam->0 as int));
                }
            }
            (Node::Internal(ca2), None, seam)
        },
        Some(res) => {
            let ghost resv = res;
            proof {
                assert(node_wf_lo(res, 0));
                lemma_byte_len_bounds(node_text(res));
                assert(byte_len(seq_text(ns2)) == byte_len(pre) + byte_len(node_text(ncv))
                    + byte_len(post));
                assert(byte_len(seq_text(ns2)) + byte_len(node_text(resv))
                    <= usize::MAX);
                assert(node_depth(resv) == node_depth(*ns2[i as int]));
                assert(ns2.take(i + 1).drop_last() =~= ns2.take(i as int));
                assert(*ns2.take(i + 1).last() == *ns2[i as int]);
                assert(seq_text(ns2.take(i + 1)) == seq_text(ns2.take(i as int))
                    + node_text(*ns2[i as int]));
                assert(ns2.take(i as int) =~= ca.nodes@.take(i as int));
                assert(ns2.skip(i + 1) =~= ca.nodes@.skip(i + 1));
            }
            let (out, resid2) = attach_residual(ca2, i, res, lo);
            proof {
                let t_all = seq_text(ns2.take(i + 1)) + node_text(resv) + seq_text(
                    ns2.skip(i + 1),
                );
                assert(t_all =~= pre + (node_text(ncv) + node_text(resv)) + post);
                assert(pre + spliced(ct, k as int, ins@) + post =~= pre + (node_text(ncv)
                    + node_text(resv)) + post);
                assert(t_all == target);
                if seam is Some {
                    let b0 = seam->0;
                    let bc = child_seam->0;
                    assert(byte_len(seq_text(ns2.take(i as int))) == acc.bytes as int);
                    assert(byte_len(seq_text(ns2.take(i + 1))) == acc.bytes + byte_len(
                        node_text(ncv),
                    ));
                    if chunk_boundary(ncv, bc as int) {
                        assert(boundary_after(
                            out,
                            resid2,
                            byte_len(seq_text(ns2.take(i as int))) + bc,
                        ));
                    } else {
                        assert(byte_len(node_text(ncv)) <= bc && chunk_boundary(
                            resv,
                            bc - byte_len(node_text(ncv)),
                        ));
                        assert(boundary_after(
                            out,
                            resid2,
                            byte_len(seq_text(ns2.take(i + 1))) + (bc - byte_len(
                                node_text(ncv),
                            )),
                        ));
                    }
                    assert(boundary_after(out, resid2, b0 as int));
                }
            }
            (out, resid2, seam)
        },
    }
}

/// Attaches a residual child after slot `i`: inserted in place when the
/// array has room, else the array splits in half around it.  Junctions
/// of the two involved subtrees stay junctions of the result.
#[verifier::rlimit(100)]
#[verifier::spinoff_prover]
fn attach_residual(ca2: ChildArray, i: usize, res: Node, lo: Ghost<int>) -> (r: (
    Node,
    Option<Node>,
))
    requires
        2 <= lo@ <= MIN_CHILDREN,
        node_wf_lo(Node::Internal(ca2), lo@),
        i < ca2.nodes@.len(),
        node_wf(res),
        !(res is Empty),
        node_depth(res) == node_depth(*ca2.nodes@[i as int]),
        byte_len(seq_text(ca2.nodes@)) + byte_len(node_text(res)) <= usize::MAX,
    ensures
        node_wf_lo(r.0, lo@),
        !(r.0 is Empty),
        node_depth(r.0) == node_depth(Node::Internal(ca2)),
        match r.1 {
            None => node_text(r.0) == seq_text(ca2.nodes@.take(i + 1)) + node_text(res)
                + seq_text(ca2.nodes@.skip(i + 1)),
            Some(rn) => {
                &&& node_text(r.0) + node_text(rn) == seq_text(ca2.nodes@.take(i + 1))
                    + node_text(res) + seq_text(ca2.nodes@.skip(i + 1))
                &&& node_wf(rn)
                &&& !(rn is Empty)
                &&& node_depth(rn) == node_depth(Node::Internal(ca2))
            },
        },
        r.1 is Some <==> ca2.nodes@.len() == MAX_CHILDREN,
        r.1 is Some ==> node_wf_lo(r.0, MIN_CHILDREN as int),
        forall|b: int|
            #[trigger] chunk_boundary(*ca2.nodes@[i as int], b) ==> boundary_after(
                r.0,
                r.1,
                byte_len(seq_text(ca2.nodes@.take(i as int))) + b,
            ),
        forall|b: int|
            #[trigger] chunk_boundary(res, b) ==> boundary_after(
                r.0,
                r.1,
                byte_len(seq_text(ca2.nodes@.take(i + 1))) + b,
            ),
{
    let ghost ns2 = ca2.nodes@;
    let ghost ca2_snap = ca2;
    let ghost resv = res;
    proof {
        lemma_wf_sums_fit(ca2);
        lemma_full_metrics(ca2);
        lemma_byte_len_bounds(node_text(resv));
        lemma_byte_len_bounds(seq_text(ns2));
        assert(node_wf_lo(res, 0));
        assert(ns2.take(i + 1).drop_last() =~= ns2.take(i as int));
        assert(*ns2.take(i + 1).last() == *ns2[i as int]);
        assert(seq_text(ns2.take(i + 1)) == seq_text(ns2.take(i as int)) + node_text(
            *ns2[i as int],
        ));
    }
    let res_info = res.text_info();
    let res_arc = Arc::new(res);
    let mut ca3 = ca2;
    if ca3.len() < MAX_CHILDREN {
        ca3.insert(i + 1, (res_info, res_arc));
        proof {
            let ns3 = ca3.nodes@;
            assert(ns3 == ns2.insert(i + 1, ns3[i + 1]));
            assert(forall|j: int| #![trigger ns3[j]] 0 <= j < i + 1 ==> *ns3[j] == *ns2[j]);
            assert(forall|j: int|
                #![trigger ns3[j]]
                i + 1 < j < ns3.len() ==> *ns3[j] == *ns2[j - 1]);
            assert(*ns3[i + 1] == resv);
            lemma_slot_insert(ca2_snap, ca3, i + 1, res_info, lo@);
            assert forall|b: int| #[trigger] chunk_boundary(*ns2[i as int], b) implies
                boundary_after(
                Node::Internal(ca3),
                None,
                byte_len(seq_text(ns2.take(i as int))) + b,
            ) by {
                lemma_cb_lift(ns3, i as int, b);
                assert(ns3.take(i as int) =~= ns2.take(i as int));
            }
            assert forall|b: int| #[trigger] chunk_boundary(resv, b) implies boundary_after(
                Node::Internal(ca3),
                None,
                byte_len(seq_text(ns2.take(i + 1))) + b,
            ) by {
                lemma_cb_lift(ns3, i + 1, b);
                assert(ns3.take(i + 1) =~= ns2.take(i + 1));
            }
        }
        (Node::Internal(ca3), None)
    } else {
        let right = ca3.insert_split(i + 1, (res_info, res_arc));
        proof {
            let lns = ca3.nodes@;
            let rns = right.nodes@;
            let all = lns + rns;
            let all_i = ca3.info@ + right.info@;
            assert(all == ns2.insert(i + 1, all[i + 1]));
            assert(forall|j: int| #![trigger all[j]] 0 <= j < i + 1 ==> *all[j] == *ns2[j]);
            assert(forall|j: int|
                #![trigger all[j]]
                i + 1 < j < all.len() ==> *all[j] == *ns2[j - 1]);
            assert(*all[i + 1] == resv);
            assert(forall|j: int|
                #![trigger all_i[j]]
                0 <= j < i + 1 ==> all_i[j] == ca2_snap.info@[j]);
            assert(forall|j: int|
                #![trigger all_i[j]]
                i + 1 < j < all_i.len() ==> all_i[j] == ca2_snap.info@[j - 1]);
            assert(all_i[i + 1] == res_info);
            assert(all.take(i + 1) =~= ns2.take(i + 1));
            assert(all.skip(i + 2) =~= ns2.skip(i + 1));
            lemma_text_decompose(all, i + 1);
            lemma_seq_text_split(ns2, i + 1);
            assert(byte_len(seq_text(ns2.take(i + 1)) + seq_text(ns2.skip(i + 1))) == byte_len(
                seq_text(ns2.take(i + 1)),
            ) + byte_len(seq_text(ns2.skip(i + 1))));
            assert(byte_len(seq_text(ns2.take(i + 1)) + node_text(resv)) == byte_len(
                seq_text(ns2.take(i + 1)),
            ) + byte_len(node_text(resv)));
            assert(byte_len(seq_text(ns2.take(i + 1)) + node_text(resv) + seq_text(
                ns2.skip(i + 1),
            )) == byte_len(seq_text(ns2.take(i + 1)) + node_text(resv)) + byte_len(
                seq_text(ns2.skip(i + 1)),
            ));
            assert(byte_len(seq_text(all)) <= usize::MAX);
            let d = child_depth(ns2, 0);
            assert(d == node_depth(*ns2[0]));
            assert forall|j: int| 0 <= j < all.len() implies node_wf_lo(
                #[trigger] *all[j],
                MIN_CHILDREN as int,
            ) && !(*all[j] is Empty) && (all_i[j]).summarizes(node_text(*all[j])) && node_depth(
                *all[j],
            ) == d by {
                assert(node_wf_lo(Node::Internal(ca2_snap), lo@));
                if j < i + 1 {
                    assert(*all[j] == *ns2[j]);
                    assert(all_i[j] == ca2_snap.info@[j]);
                } else if j > i + 1 {
                    assert(*all[j] == *ns2[j - 1]);
                    assert(all_i[j] == ca2_snap.info@[j - 1]);
                }
            }
            lemma_halves(ca3, right, all, all_i, d);
            assert forall|b: int| #[trigger] chunk_boundary(*ns2[i as int], b) implies
                boundary_after(
                Node::Internal(ca3),
                Some(Node::Internal(right)),
                byte_len(seq_text(ns2.take(i as int))) + b,
            ) by {
                assert(*all[i as int] == *ns2[i as int]);
                lemma_cb_concat(lns, rns, i as int, b);
                assert(all.take(i as int) =~= ns2.take(i as int));
            }
            assert forall|b: int| #[trigger] chunk_boundary(resv, b) implies boundary_after(
                Node::Internal(ca3),
                Some(Node::Internal(right)),
                byte_len(seq_text(ns2.take(i + 1))) + b,
            ) by {
                lemma_cb_concat(lns, rns, i + 1, b);
            }
        }
        (Node::Internal(ca3), Some(Node::Internal(right)))
    }
}

/// Concatenation of a sequence of chunk strings.
pub open spec fn concat_strs(ss: Seq<String>) -> Seq<char>
    decreases ss.len(),
{
    if ss.len() == 0 {
        Seq::empty()
    } else {
        concat_strs(ss.drop_last()) + ss.last()@
    }
}

pub proof fn lemma_concat_strs_push(ss: Seq<String>, t: String)
    ensures
        concat_strs(ss.push(t)) == concat_strs(ss) + t@,
{
    assert(ss.push(t).drop_last() =~= ss);
    assert(ss.push(t).last() == t);
}

/// The summary-consistency that `verify_integrity` re-checks: at every
/// internal node the two arrays agree in length and each slot's info
/// equals the metrics of the corresponding child's text.
pub open spec fn summaries_consistent(n: Node) -> bool
    decreases n,
{
    match n {
        Node::Empty => true,
        Node::Leaf(_) => true,
        Node::Internal(ca) => {
            &&& ca.info@.len() == ca.nodes@.len()
            &&& (forall|i: int|
                0 <= i < ca.nodes@.len() ==> (#[trigger] ca.info@[i]).summarizes(
                    node_text(*ca.nodes@[i]),
                ))
            &&& (forall|i: int|
                0 <= i < ca.nodes@.len() ==> summaries_consistent(#[trigger] *ca.nodes@[i]))
        },
    }
}

/// Any well-formed tree passes the integrity re-check.
pub proof fn lemma_wf_integrity(n: Node)
    requires
        node_wf_lo(n, 0),
    ensures
        summaries_consistent(n),
    decreases n,
{
    match n {
        Node::Empty => {},
        Node::Leaf(_) => {},
        Node::Internal(ca) => {
            assert forall|i: int| 0 <= i < ca.nodes@.len() implies summaries_consistent(
                #[trigger] *ca.nodes@[i],
            ) by {
                assert(node_wf_lo(*ca.nodes@[i], MIN_CHILDREN as int));
                assert(node_wf_lo(*ca.nodes@[i], 0));
                lemma_wf_integrity(*ca.nodes@[i]);
            }
        },
    }
}

impl Node {
    /// Appends the text of the char range `[start, end)` of this subtree.
    pub fn write_text(&self, start: usize, end: usize, out: &mut String)
        requires
            node_wf_lo(*self, 0),
            byte_len(node_text(*self)) <= usize::MAX,
            start <= end <= node_text(*self).len(),
        ensures
            final(out)@ == old(out)@ + node_text(*self).subrange(start as int, end as int),
        decreases *self,
    {
        match self {
            Node::Empty => {
                proof {
                    assert(old(out)@ + node_text(*self).subrange(start as int, end as int) =~= out@);
                }
            },
            Node::Leaf(s) => {
                let part = s.as_str().substring_char(start, end);
                out.append(part);
            },
            Node::Internal(ca) => {
                let n = ca.len();
                let mut j: usize = 0;
                let mut c0: usize = 0;
                let ghost whole = node_text(*self);
                proof {
                    lemma_wf_sums_fit(*ca);
                    lemma_full_metrics(*ca);
                    lemma_prefix_metrics(*ca, 0);
                    assert(whole.subrange(start as int, start as int) =~= Seq::empty());
                    assert(old(out)@ + whole.subrange(start as int, start as int) =~= old(out)@);
                }
                while j < n
                    invariant
                        j <= n,
                        n == ca.nodes@.len(),
                        *self == Node::Internal(*ca),
                        node_wf_lo(Node::Internal(*ca), 0),
                        whole == seq_text(ca.nodes@),
                        byte_len(whole) <= usize::MAX,
                        start <= end <= whole.len(),
                        c0 == seq_text(ca.nodes@.take(j as int)).len(),
                        c0 <= whole.len(),
                        out@ == old(out)@ + whole.subrange(
                            start as int,
                            if c0 < start { start as int } else if c0 < end { c0 as int } else { end as int },
                        ),
                    decreases n - j,
                {
                    proof {
                        lemma_internal_setup(*ca, j as int);
                    }
                    let ghost pre = seq_text(ca.nodes@.take(j as int));
                    let ghost ct = child_text(ca.nodes@, j as int);
                    let ghost post = seq_text(ca.nodes@.skip(j + 1));
                    let inf = ca.info[j];
                    let c1 = c0 + inf.chars;
                    proof {
                        assert(ca.nodes@.take(j + 1).drop_last() =~= ca.nodes@.take(j as int));
                        assert(*ca.nodes@.take(j + 1).last() == *ca.nodes@[j as int]);
                        assert(seq_text(ca.nodes@.take(j + 1)) == pre + ct);
                        assert(c1 == seq_text(ca.nodes@.take(j + 1)).len());
                        lemma_prefix_metric_mono(Metric::Chars, ca.info@, j + 1, n as int);
                    }
                    let lo = if start > c0 { start } else { c0 };
                    let hi = if end < c1 { end } else { c1 };
                    if lo < hi {
                        let child: &Node = &ca.nodes[j];
                        child.write_text(lo - c0, hi - c0, out);
                        proof {
                            assert(ct.subrange(lo - c0, hi - c0) =~= whole.subrange(
                                lo as int,
                                hi as int,
                            ));
                            let a = if c0 < start { start as int } else if c0 < end { c0 as int } else { end as int };
                            assert(a == lo);
                            assert(whole.subrange(start as int, lo as int) + whole.subrange(
                                lo as int,
                                hi as int,
                            ) =~= whole.subrange(start as int, hi as int));
                            let b = if c1 < start { start as int } else if c1 < end { c1 as int } else { end as int };
                            assert(b == hi);
                        }
                    } else {
                        proof {
                            let a = if c0 < start { start as int } else if c0 < end { c0 as int } else { end as int };
                            let b = if c1 < start { start as int } else if c1 < end { c1 as int } else { end as int };
                            assert(whole.subrange(start as int, a) =~= whole.subrange(
                                start as int,
                                b,
                            ));
                        }
                    }
                    c0 = c1;
                    j = j + 1;
                }
                proof {
                    assert(ca.nodes@.take(n as int) =~= ca.nodes@);
                    assert(c0 == whole.len());
                    let a = if c0 < start { start as int } else if c0 < end { c0 as int } else { end as int };
                    assert(a == end);
                }
            },
        }
    }

    /// The text of the char range `[start, end)` as an owned string.
    pub fn to_string_range(&self, start: usize, end: usize) -> (r: String)
        requires
            node_wf_lo(*self, 0),
            byte_len(node_text(*self)) <= usize::MAX,
            start <= end <= node_text(*self).len(),
        ensures
            r@ == node_text(*self).subrange(start as int, end as int),
    {
        let mut out = String::new();
        self.write_text(start, end, &mut out);
        out
    }

    /// The leaf chunks covering the char range `[start, end)`, boundary
    /// chunks trimmed to the range.
    pub fn collect_chunks(&self, start: usize, end: usize, out: &mut Vec<String>)
        requires
            node_wf_lo(*self, 0),
            byte_len(node_text(*self)) <= usize::MAX,
            start <= end <= node_text(*self).len(),
        ensures
            concat_strs(final(out)@) == concat_strs(old(out)@) + node_text(*self).subrange(
                start as int,
                end as int,
            ),
        decreases *self,
    {
        match self {
            Node::Empty => {
                proof {
                    assert(concat_strs(out@) + node_text(*self).subrange(start as int, end as int)
                        =~= concat_strs(out@));
                }
            },
            Node::Leaf(s) => {
                let part = s.as_str().substring_char(start, end).to_owned();
                out.push(part);
                proof {
                    lemma_concat_strs_push(old(out)@, out@.last());
                }
            },
            Node::Internal(ca) => {
                let n = ca.len();
                let mut j: usize = 0;
                let mut c0: usize = 0;
                let ghost whole = node_text(*self);
                proof {
                    lemma_wf_sums_fit(*ca);
                    lemma_full_metrics(*ca);
                    lemma_prefix_metrics(*ca, 0);
                    assert(whole.subrange(start as int, start as int) =~= Seq::empty());
                    assert(concat_strs(old(out)@) + whole.subrange(start as int, start as int)
                        =~= concat_strs(old(out)@));
                }
                while j < n
                    invariant
                        j <= n,
                        n == ca.nodes@.len(),
                        *self == Node::Internal(*ca),
                        node_wf_lo(Node::Internal(*ca), 0),
                        whole == seq_text(ca.nodes@),
                        byte_len(whole) <= usize::MAX,
                        start <= end <= whole.len(),
                        c0 == seq_text(ca.nodes@.take(j as int)).len(),
                        c0 <= whole.len(),
                        concat_strs(out@) == concat_strs(old(out)@) + whole.subrange(
                            start as int,
                            if c0 < start { start as int } else if c0 < end { c0 as int } else { end as int },
                        ),
                    decreases n - j,
                {
                    proof {
                        lemma_internal_setup(*ca, j as int);
                    }
                    let ghost pre = seq_text(ca.nodes@.take(j as int));
                    let ghost ct = child_text(ca.nodes@, j as int);
                    let inf = ca.info[j];
                    let c1 = c0 + inf.chars;
                    proof {
                        assert(ca.nodes@.take(j + 1).drop_last() =~= ca.nodes@.take(j as int));
                        assert(*ca.nodes@.take(j + 1).last() == *ca.nodes@[j as int]);
                        assert(seq_text(ca.nodes@.take(j + 1)) == pre + ct);
                        assert(c1 == seq_text(ca.nodes@.take(j + 1)).len());
                        lemma_prefix_metric_mono(Metric::Chars, ca.info@, j + 1, n as int);
                    }
                    let lo = if start > c0 { start } else { c0 };
                    let hi = if end < c1 { end } else { c1 };
                    if lo < hi {
                        let child: &Node = &ca.nodes[j];
                        child.collect_chunks(lo - c0, hi - c0, out);
                        proof {
                            assert(ct.subrange(lo - c0, hi - c0) =~= whole.subrange(
                                lo as int,
                                hi as int,
                            ));
                            let a = if c0 < start { start as int } else if c0 < end { c0 as int } else { end as int };
                            assert(a == lo);
                            assert(whole.subrange(start as int, lo as int) + whole.subrange(
                                lo as int,
                                hi as int,
                            ) =~= whole.subrange(start as int, hi as int));
                            let b = if c1 < start { start as int } else if c1 < end { c1 as int } else { end as int };
                            assert(b == hi);
                        }
                    } else {
                        proof {
                            let a = if c0 < start { start as int } else if c0 < end { c0 as int } else { end as int };
                            let b = if c1 < start { start as int } else if c1 < end { c1 as int } else { end as int };
                            assert(whole.subrange(start as int, a) =~= whole.subrange(
                                start as int,
                                b,
                            ));
                        }
                    }
                    c0 = c1;
                    j = j + 1;
                }
                proof {
                    assert(ca.nodes@.take(n as int) =~= ca.nodes@);
                    assert(c0 == whole.len());
                    let a = if c0 < start { start as int } else if c0 < end { c0 as int } else { end as int };
                    assert(a == end);
                }
            },
        }
    }

    /// Re-checks that every internal node's slot infos match the actual
    /// metrics of the corresponding child subtrees.
    pub fn verify_integrity(&self) -> (r: bool)
        requires
            node_wf_lo(*self, 0),
            byte_len(node_text(*self)) <= usize::MAX,
        ensures
            r == summaries_consistent(*self),
        decreases *self,
    {
        proof {
            lemma_wf_integrity(*self);
        }
        match self {
            Node::Empty => true,
            Node::Leaf(_) => true,
            Node::Internal(ca) => {
                if ca.info.len() != ca.nodes.len() {
                    return false;
                }
                let n = ca.len();
                let mut j: usize = 0;
                while j < n
                    invariant
                        j <= n,
                        n == ca.nodes@.len(),
                        *self == Node::Internal(*ca),
                        node_wf_lo(Node::Internal(*ca), 0),
                        byte_len(seq_text(ca.nodes@)) <= usize::MAX,
                    decreases n - j,
                {
                    proof {
                        lemma_internal_setup(*ca, j as int);
                        lemma_wf_integrity(*self);
                        assert(summaries_consistent(*self));
                        assert(summaries_consistent(*ca.nodes@[j as int]));
                    }
                    let child: &Node = &ca.nodes[j];
                    let computed = child.text_info();
                    let stored = ca.info[j];
                    if !(stored == computed) {
                        return false;
                    }
                    if !child.verify_integrity() {
                        return false;
                    }
                    j = j + 1;
                }
                true
            },
        }
    }
}

impl Node {
    /// Whether `char_idx` is an extended grapheme cluster boundary of the
    /// stored text; 0 and the text length always are.
    pub fn is_grapheme_boundary(&self, char_idx: usize) -> (r: bool)
        requires
            node_wf_lo(*self, 0),
            byte_len(node_text(*self)) <= usize::MAX,
            char_idx <= node_text(*self).len(),
        ensures
            r == crate::grapheme::grapheme_break_at(node_text(*self), char_idx as int),
            char_idx == 0 ==> r,
            char_idx == node_text(*self).len() ==> r,
    {
        let n = self.char_count();
        let t = self.to_string_range(0, n);
        proof {
            assert(node_text(*self).subrange(0, node_text(*self).len() as int) =~= node_text(
                *self,
            ));
        }
        crate::grapheme::str_is_grapheme_boundary(t.as_str(), char_idx)
    }

    /// The largest grapheme boundary strictly before `char_idx`, clamped
    /// to 0.
    pub fn prev_grapheme_boundary(&self, char_idx: usize) -> (r: usize)
        requires
            node_wf_lo(*self, 0),
            byte_len(node_text(*self)) <= usize::MAX,
            char_idx <= node_text(*self).len(),
        ensures
            char_idx == 0 ==> r == 0,
            char_idx > 0 ==> r < char_idx,
            char_idx > 0 ==> crate::grapheme::grapheme_break_at(node_text(*self), r as int),
            forall|j: int|
                r < j < char_idx ==> !crate::grapheme::grapheme_break_at(node_text(*self), j),
    {
        let n = self.char_count();
        let t = self.to_string_range(0, n);
        proof {
            assert(node_text(*self).subrange(0, node_text(*self).len() as int) =~= node_text(
                *self,
            ));
        }
        crate::grapheme::str_prev_grapheme_boundary(t.as_str(), char_idx)
    }

    /// The smallest grapheme boundary strictly after `char_idx`, clamped
    /// to the text length.
    pub fn next_grapheme_boundary(&self, char_idx: usize) -> (r: usize)
        requires
            node_wf_lo(*self, 0),
            byte_len(node_text(*self)) <= usize::MAX,
            char_idx <= node_text(*self).len(),
        ensures
            char_idx == node_text(*self).len() ==> r == char_idx,
            char_idx < node_text(*self).len() ==> char_idx < r <= node_text(*self).len(),
            char_idx < node_text(*self).len() ==> crate::grapheme::grapheme_break_at(
                node_text(*self),
                r as int,
            ),
            forall|j: int|
                char_idx < j < r ==> !crate::grapheme::grapheme_break_at(node_text(*self), j),
    {
        let n = self.char_count();
        let t = self.to_string_range(0, n);
        proof {
            assert(node_text(*self).subrange(0, node_text(*self).len() as int) =~= node_text(
                *self,
            ));
        }
        crate::grapheme::str_next_grapheme_boundary(t.as_str(), char_idx)
    }
}

/// A one-level copy of a node: the chunk string or the slot arrays are
/// duplicated, subtrees stay shared.  The copy carries the same text,
/// depth and well-formedness; the original is untouched, so shared
/// observers keep their snapshot.
pub fn node_copy(n: &Node) -> (r: Node)
    ensures
        node_text(r) == node_text(*n),
        node_depth(r) == node_depth(*n),
        forall|lo: int| #[trigger] node_wf_lo(r, lo) <==> node_wf_lo(*n, lo),
        forall|b: int| #[trigger] chunk_boundary(r, b) <==> chunk_boundary(*n, b),
        r is Empty <==> *n is Empty,
{
    match n {
        Node::Empty => Node::Empty,
        Node::Leaf(s) => {
            let t = s.clone();
            Node::Leaf(t)
        },
        Node::Internal(ca) => {
            let ca2 = ca.clone();
            proof {
                assert(ca2.nodes@ == ca.nodes@);
                assert(ca2.info@ == ca.info@);
            }
            Node::Internal(ca2)
        },
    }
}

/// The rightmost-leaf text of child `i` (convenient in proofs).
pub open spec fn child_rightmost(ns: Seq<Arc<Node>>, i: int) -> Seq<char> {
    rightmost_leaf(*ns[i])
}

/// The leftmost-leaf text of child `i` (convenient in proofs).
pub open spec fn child_leftmost(ns: Seq<Arc<Node>>, i: int) -> Seq<char> {
    leftmost_leaf(*ns[i])
}


/// `b` is a byte offset on a junction between leaf chunks of the
/// subtree: 0, the end, or a cumulative leaf boundary.
pub open spec fn chunk_boundary(n: Node, b: int) -> bool
    decreases n, 0int, 0int,
{
    match n {
        Node::Empty => b == 0,
        Node::Leaf(s) => b == 0 || b == byte_len(s@),
        Node::Internal(ca) => cb_seq(ca.nodes@, b),
    }
}

/// `b` is a junction byte offset of a sequence of adjacent subtrees.
pub open spec fn cb_seq(ns: Seq<Arc<Node>>, b: int) -> bool
    decreases ns, ns.len(), 1int,
{
    if ns.len() == 0 {
        b == 0
    } else {
        cb_seq(ns.drop_last(), b) || (byte_len(seq_text(ns.drop_last())) <= b && chunk_boundary(
            *ns.last(),
            b - byte_len(seq_text(ns.drop_last())),
        ))
    }
}

/// Junction offsets lie within the text.
pub proof fn lemma_cb_range(n: Node, b: int)
    requires
        chunk_boundary(n, b),
    ensures
        0 <= b <= byte_len(node_text(n)),
    decreases n, 0int, 0int,
{
    broadcast use lemma_byte_len_additive;

    lemma_byte_len_bounds(node_text(n));
    match n {
        Node::Empty => {},
        Node::Leaf(_) => {},
        Node::Internal(ca) => {
            lemma_cb_seq_range(ca.nodes@, b);
        },
    }
}

pub proof fn lemma_cb_seq_range(ns: Seq<Arc<Node>>, b: int)
    requires
        cb_seq(ns, b),
    ensures
        0 <= b <= byte_len(seq_text(ns)),
    decreases ns, ns.len(), 1int,
{
    broadcast use lemma_byte_len_additive;

    if ns.len() == 0 {
    } else {
        assert(seq_text(ns) == seq_text(ns.drop_last()) + node_text(*ns.last()));
        assert(byte_len(seq_text(ns)) == byte_len(seq_text(ns.drop_last())) + byte_len(
            node_text(*ns.last()),
        ));
        assert(node_text(*ns.last()).len() <= byte_len(node_text(*ns.last()))) by {
            lemma_byte_len_bounds(node_text(*ns.last()));
        }
        lemma_byte_len_bounds(seq_text(ns.drop_last()));
        if cb_seq(ns.drop_last(), b) {
            lemma_cb_seq_range(ns.drop_last(), b);
        } else {
            assert(chunk_boundary(*ns.last(), b - byte_len(seq_text(ns.drop_last())))) by {
            }
            assert(0 <= b - byte_len(seq_text(ns.drop_last())) <= byte_len(
                node_text(*ns.last()),
            )) by {
                lemma_cb_range(*ns.last(), b - byte_len(seq_text(ns.drop_last())));
            }
        }
    }
}

/// The two ends of any subtree's text are junctions.
pub proof fn lemma_cb_ends(n: Node)
    ensures
        chunk_boundary(n, 0),
        chunk_boundary(n, byte_len(node_text(n))),
    decreases n, 0int, 0int,
{
    broadcast use lemma_byte_len_additive;

    match n {
        Node::Empty => {},
        Node::Leaf(_) => {},
        Node::Internal(ca) => {
            lemma_cb_seq_ends(ca.nodes@);
        },
    }
}

pub proof fn lemma_cb_seq_ends(ns: Seq<Arc<Node>>)
    ensures
        cb_seq(ns, 0),
        cb_seq(ns, byte_len(seq_text(ns))),
    decreases ns, ns.len(), 1int,
{
    broadcast use lemma_byte_len_additive;

    if ns.len() == 0 {
    } else {
        lemma_cb_seq_ends(ns.drop_last());
        assert(seq_text(ns) == seq_text(ns.drop_last()) + node_text(*ns.last()));
        assert(byte_len(seq_text(ns)) == byte_len(seq_text(ns.drop_last())) + byte_len(
            node_text(*ns.last()),
        ));
        lemma_byte_len_bounds(seq_text(ns.drop_last()));
        assert(chunk_boundary(*ns.last(), byte_len(node_text(*ns.last())))
            && chunk_boundary(*ns.last(), 0)) by {
            lemma_cb_ends(*ns.last());
        }
    }
}

/// A junction of child `k`, shifted by the preceding children's bytes,
/// is a junction of the sequence.
pub proof fn lemma_cb_lift(ns: Seq<Arc<Node>>, k: int, b: int)
    requires
        0 <= k < ns.len(),
        chunk_boundary(*ns[k], b),
    ensures
        cb_seq(ns, byte_len(seq_text(ns.take(k))) + b),
    decreases ns.len(),
{
    broadcast use lemma_byte_len_additive;

    if k == ns.len() - 1 {
        assert(ns.take(k) =~= ns.drop_last());
        lemma_byte_len_bounds(seq_text(ns.drop_last()));
        assert(*ns.last() == *ns[k]);
        assert(0 <= b) by {
            lemma_cb_range(*ns[k], b);
        }
        assert(cb_seq(ns, byte_len(seq_text(ns.take(k))) + b));
    } else {
        assert(ns.drop_last().take(k) =~= ns.take(k));
        assert(*ns.drop_last()[k] == *ns[k]);
        lemma_cb_lift(ns.drop_last(), k, b);
    }
}

/// Inversion: a junction strictly inside the span of child `i` is a
/// junction of that child.
pub proof fn lemma_cb_invert(ns: Seq<Arc<Node>>, i: int, b: int)
    requires
        cb_seq(ns, b),
        0 <= i < ns.len(),
        byte_len(seq_text(ns.take(i))) < b < byte_len(seq_text(ns.take(i + 1))),
    ensures
        chunk_boundary(*ns[i], b - byte_len(seq_text(ns.take(i)))),
    decreases ns.len(),
{
    broadcast use lemma_byte_len_additive;

    if i == ns.len() - 1 {
        assert(ns.take(i) =~= ns.drop_last());
        assert(ns.take(i + 1) =~= ns);
        if cb_seq(ns.drop_last(), b) {
            lemma_cb_seq_range(ns.drop_last(), b);
            assert(false);
        }
        assert(*ns.last() == *ns[i]);
    } else {
        assert(ns.drop_last().take(i) =~= ns.take(i));
        assert(ns.drop_last().take(i + 1) =~= ns.take(i + 1));
        assert(*ns.drop_last()[i] == *ns[i]);
        if !cb_seq(ns.drop_last(), b) {
            // the last child's junctions start at or after its own span
            assert(byte_len(seq_text(ns.drop_last())) <= b);
            assert(seq_text(ns.take(i + 1)) + seq_text(ns.skip(i + 1)) == seq_text(ns)) by {
                lemma_seq_text_split(ns, i + 1);
            }
            assert(seq_text(ns.drop_last()) == seq_text(ns.take(i + 1)) + seq_text(
                ns.drop_last().skip(i + 1),
            )) by {
                lemma_seq_text_split(ns.drop_last(), i + 1);
                assert(ns.drop_last().take(i + 1) =~= ns.take(i + 1));
            }
            lemma_byte_len_bounds(seq_text(ns.drop_last().skip(i + 1)));
            assert(byte_len(seq_text(ns.take(i + 1))) <= byte_len(seq_text(ns.drop_last())));
            assert(false);
        }
        lemma_cb_invert(ns.drop_last(), i, b);
    }
}

/// A junction of child `k` of a concatenated slot sequence is a junction
/// of the left half or of the right half, in their own coordinates.
pub proof fn lemma_cb_concat(lns: Seq<Arc<Node>>, rns: Seq<Arc<Node>>, k: int, b: int)
    requires
        0 <= k < lns.len() + rns.len(),
        chunk_boundary(*(lns + rns)[k], b),
    ensures
        ({
            let x = byte_len(seq_text((lns + rns).take(k))) + b;
            cb_seq(lns, x) || (byte_len(seq_text(lns)) <= x && cb_seq(rns, x - byte_len(
                seq_text(lns),
            )))
        }),
{
    broadcast use lemma_byte_len_additive;

    let all = lns + rns;
    if k < lns.len() {
        assert(all.take(k) =~= lns.take(k));
        assert(*all[k] == *lns[k]);
        lemma_cb_lift(lns, k, b);
    } else {
        assert(*all[k] == *rns[k - lns.len()]);
        assert(all.take(k) =~= lns + rns.take(k - lns.len()));
        lemma_seq_text_cat(lns, rns.take(k - lns.len()));
        assert(byte_len(seq_text(lns) + seq_text(rns.take(k - lns.len()))) == byte_len(
            seq_text(lns),
        ) + byte_len(seq_text(rns.take(k - lns.len()))));
        lemma_cb_lift(rns, k - lns.len(), b);
        assert(0 <= b) by {
            lemma_cb_range(*rns[k - lns.len()], b);
        }
        lemma_byte_len_bounds(seq_text(rns.take(k - lns.len())));
    }
}

/// The text of the leftmost leaf of a subtree.
pub open spec fn leftmost_leaf(n: Node) -> Seq<char>
    decreases n,
{
    match n {
        Node::Empty => Seq::empty(),
        Node::Leaf(s) => s@,
        Node::Internal(ca) => if ca.nodes@.len() > 0 {
            leftmost_leaf(*ca.nodes@[0])
        } else {
            Seq::empty()
        },
    }
}

/// The text of the rightmost leaf of a subtree.
pub open spec fn rightmost_leaf(n: Node) -> Seq<char>
    decreases n,
{
    match n {
        Node::Empty => Seq::empty(),
        Node::Leaf(s) => s@,
        Node::Internal(ca) => if ca.nodes@.len() > 0 {
            rightmost_leaf(*ca.nodes@[ca.nodes@.len() - 1])
        } else {
            Seq::empty()
        },
    }
}

/// The rightmost leaf's text is a suffix of the subtree's text.
pub proof fn lemma_rightmost_suffix(n: Node)
    ensures
        rightmost_leaf(n).len() <= node_text(n).len(),
        node_text(n).skip(node_text(n).len() - rightmost_leaf(n).len()) == rightmost_leaf(n),
    decreases n,
{
    match n {
        Node::Empty => {
            assert(node_text(n).skip(0) =~= node_text(n));
        },
        Node::Leaf(_) => {
            assert(node_text(n).skip(0) =~= node_text(n));
        },
        Node::Internal(ca) => {
            let ns = ca.nodes@;
            if ns.len() == 0 {
                assert(node_text(n).skip(0) =~= node_text(n));
            } else {
                assert(seq_text(ns) == seq_text(ns.drop_last()) + node_text(*ns.last()));
                assert(*ns.last() == *ns[ns.len() - 1]);
                assert(rightmost_leaf(n) == rightmost_leaf(*ns[ns.len() - 1])) by {
                    assert(ns.len() > 0);
                }
                assert(rightmost_leaf(*ns[ns.len() - 1]).len() <= node_text(
                    *ns[ns.len() - 1],
                ).len() && node_text(*ns[ns.len() - 1]).skip(
                    node_text(*ns[ns.len() - 1]).len() - rightmost_leaf(
                        *ns[ns.len() - 1],
                    ).len(),
                ) == rightmost_leaf(*ns[ns.len() - 1])) by {
                    lemma_rightmost_suffix(*ns[ns.len() - 1]);
                }
                assert(node_text(n).skip(node_text(n).len() - rightmost_leaf(n).len())
                    =~= node_text(*ns[ns.len() - 1]).skip(
                    node_text(*ns[ns.len() - 1]).len() - rightmost_leaf(n).len(),
                ));
            }
        },
    }
}

/// The leftmost leaf's text is a prefix of the subtree's text.
pub proof fn lemma_leftmost_prefix(n: Node)
    ensures
        leftmost_leaf(n).len() <= node_text(n).len(),
        node_text(n).take(leftmost_leaf(n).len() as int) == leftmost_leaf(n),
    decreases n,
{
    match n {
        Node::Empty => {
            assert(node_text(n).take(0) =~= node_text(n));
        },
        Node::Leaf(_) => {
            assert(node_text(n).take(node_text(n).len() as int) =~= node_text(n));
        },
        Node::Internal(ca) => {
            let ns = ca.nodes@;
            if ns.len() == 0 {
                assert(node_text(n).take(0) =~= node_text(n));
            } else {
                lemma_text_decompose(ns, 0);
                assert(ns.take(0) =~= Seq::empty());
                assert(seq_text(ns) == Seq::empty() + node_text(*ns[0]) + seq_text(ns.skip(1)));
                assert(leftmost_leaf(*ns[0]).len() <= node_text(*ns[0]).len() && node_text(
                    *ns[0],
                ).take(leftmost_leaf(*ns[0]).len() as int) == leftmost_leaf(*ns[0])) by {
                    lemma_leftmost_prefix(*ns[0]);
                }
                assert(node_text(n).take(leftmost_leaf(n).len() as int) =~= node_text(
                    *ns[0],
                ).take(leftmost_leaf(*ns[0]).len() as int));
            }
        },
    }
}

/// Reads the rightmost leaf's chunk.
pub fn rightmost_leaf_text(n: &Node) -> (r: String)
    ensures
        r@ == rightmost_leaf(*n),
    decreases *n,
{
    match n {
        Node::Empty => String::new(),
        Node::Leaf(s) => s.clone(),
        Node::Internal(ca) => {
            if ca.nodes.len() == 0 {
                String::new()
            } else {
                let j = ca.nodes.len() - 1;
                let child: &Node = &ca.nodes[j];
                rightmost_leaf_text(child)
            }
        },
    }
}

/// Reads the leftmost leaf's chunk.
pub fn leftmost_leaf_text(n: &Node) -> (r: String)
    ensures
        r@ == leftmost_leaf(*n),
    decreases *n,
{
    match n {
        Node::Empty => String::new(),
        Node::Leaf(s) => s.clone(),
        Node::Internal(ca) => {
            if ca.nodes.len() == 0 {
                String::new()
            } else {
                let child: &Node = &ca.nodes[0];
                leftmost_leaf_text(child)
            }
        },
    }
}

/// Rebuilds a subtree with its rightmost leaf's chunk replaced by `t`,
/// recomputing the summaries down the right spine.
#[verifier::rlimit(100)]
#[verifier::spinoff_prover]
fn replace_rightmost_leaf(n: &Node, t: String, lo: Ghost<int>) -> (r: Node)
    requires
        2 <= lo@ <= MIN_CHILDREN,
        node_wf_lo(*n, lo@),
        byte_len(node_text(*n).take(node_text(*n).len() - rightmost_leaf(*n).len())) + byte_len(
            t@,
        ) <= usize::MAX,
    ensures
        node_text(r) == node_text(*n).take(node_text(*n).len() - rightmost_leaf(*n).len()) + t@,
        rightmost_leaf(r) == t@,
        node_wf_lo(r, lo@),
        node_depth(r) == node_depth(*n),
        !(*n is Empty) ==> !(r is Empty),
    decreases *n,
{
    proof {
        lemma_rightmost_suffix(*n);
    }
    match n {
        Node::Empty => {
            proof {
                assert(node_text(*n).take(0) =~= Seq::empty());
                assert(Seq::empty() + t@ =~= t@);
            }
            Node::Leaf(t)
        },
        Node::Leaf(s) => {
            proof {
                assert(node_text(*n).take(0) =~= Seq::empty());
                assert(Seq::empty() + t@ =~= t@);
            }
            Node::Leaf(t)
        },
        Node::Internal(ca) => {
            let j = ca.nodes.len() - 1;
            proof {
                lemma_internal_setup(*ca, j as int);
                lemma_byte_len_bounds(t@);
                let whole = node_text(*n);
                let pre = seq_text(ca.nodes@.take(j as int));
                let ct = child_text(ca.nodes@, j as int);
                assert(ca.nodes@.skip(j + 1) =~= Seq::empty());
                assert(seq_text(ca.nodes@.skip(j + 1)) == Seq::<char>::empty());
                assert(whole =~= pre + ct);
                assert(rightmost_leaf(*n) == rightmost_leaf(*ca.nodes@[j as int]));
                assert(rightmost_leaf(*ca.nodes@[j as int]).len() <= ct.len() && ct.skip(
                    ct.len() - rightmost_leaf(*ca.nodes@[j as int]).len(),
                ) == rightmost_leaf(*ca.nodes@[j as int])) by {
                    lemma_rightmost_suffix(*ca.nodes@[j as int]);
                }
                assert(whole.take(whole.len() - rightmost_leaf(*n).len()) =~= pre + ct.take(
                    ct.len() - rightmost_leaf(*ca.nodes@[j as int]).len(),
                ));
                assert(byte_len(
                    pre + ct.take(ct.len() - rightmost_leaf(*ca.nodes@[j as int]).len()),
                ) == byte_len(pre) + byte_len(
                    ct.take(ct.len() - rightmost_leaf(*ca.nodes@[j as int]).len()),
                ));
                lemma_byte_len_bounds(pre);
            }
            let child: &Node = &ca.nodes[j];
            let nc = replace_rightmost_leaf(child, t, Ghost(MIN_CHILDREN as int));
            proof {
                assert(node_wf_lo(nc, 0));
                assert(byte_len(node_text(nc)) <= usize::MAX) by {
                    let pre = seq_text(ca.nodes@.take(j as int));
                    let ct = child_text(ca.nodes@, j as int);
                    assert(node_text(nc) == ct.take(
                        ct.len() - rightmost_leaf(*ca.nodes@[j as int]).len(),
                    ) + t@);
                    assert(byte_len(node_text(nc)) == byte_len(
                        ct.take(ct.len() - rightmost_leaf(*ca.nodes@[j as int]).len()),
                    ) + byte_len(t@));
                    lemma_byte_len_bounds(pre);
                }
            }
            let ninfo = nc.text_info();
            let mut ca2 = ca.clone();
            let ghost ncv = nc;
            ca2.set(j, (ninfo, Arc::new(nc)));
            proof {
                assert(*ca2.nodes@[j as int] == ncv);
                assert(forall|k: int|
                    #![trigger ca2.nodes@[k]]
                    0 <= k < ca2.nodes@.len() && k != j ==> *ca2.nodes@[k] == *ca.nodes@[k]);
                lemma_slot_update(*ca, ca2, j as int, ninfo, lo@);
                let whole = node_text(*n);
                let pre = seq_text(ca.nodes@.take(j as int));
                let ct = child_text(ca.nodes@, j as int);
                assert(seq_text(ca2.nodes@) == pre + node_text(ncv) + seq_text(
                    ca.nodes@.skip(j + 1),
                ));
                assert(seq_text(ca2.nodes@) =~= whole.take(
                    whole.len() - rightmost_leaf(*n).len(),
                ) + t@);
            }
            Node::Internal(ca2)
        },
    }
}

/// Rebuilds a subtree with its leftmost leaf's chunk replaced by `t`,
/// recomputing the summaries down the left spine.
#[verifier::rlimit(100)]
#[verifier::spinoff_prover]
fn replace_leftmost_leaf(n: &Node, t: String, lo: Ghost<int>) -> (r: Node)
    requires
        2 <= lo@ <= MIN_CHILDREN,
        node_wf_lo(*n, lo@),
        byte_len(node_text(*n).skip(leftmost_leaf(*n).len() as int)) + byte_len(t@)
            <= usize::MAX,
    ensures
        node_text(r) == t@ + node_text(*n).skip(leftmost_leaf(*n).len() as int),
        leftmost_leaf(r) == t@,
        node_wf_lo(r, lo@),
        node_depth(r) == node_depth(*n),
        !(*n is Empty) ==> !(r is Empty),
    decreases *n,
{
    proof {
        lemma_leftmost_prefix(*n);
    }
    match n {
        Node::Empty => {
            proof {
                assert(node_text(*n).skip(0) =~= Seq::empty());
                assert(t@ + Seq::empty() =~= t@);
            }
            Node::Leaf(t)
        },
        Node::Leaf(s) => {
            proof {
                assert(node_text(*n).skip(node_text(*n).len() as int) =~= Seq::empty());
                assert(t@ + Seq::empty() =~= t@);
            }
            Node::Leaf(t)
        },
        Node::Internal(ca) => {
            proof {
                lemma_internal_setup(*ca, 0);
                lemma_byte_len_bounds(t@);
                let whole = node_text(*n);
                let ct = child_text(ca.nodes@, 0);
                let post = seq_text(ca.nodes@.skip(1));
                assert(ca.nodes@.take(0) =~= Seq::empty());
                assert(seq_text(ca.nodes@.take(0)) == Seq::<char>::empty());
                assert(whole =~= ct + post);
                assert(leftmost_leaf(*n) == leftmost_leaf(*ca.nodes@[0]));
                assert(leftmost_leaf(*ca.nodes@[0]).len() <= ct.len() && ct.take(
                    leftmost_leaf(*ca.nodes@[0]).len() as int,
                ) == leftmost_leaf(*ca.nodes@[0])) by {
                    lemma_leftmost_prefix(*ca.nodes@[0]);
                }
                assert(whole.skip(leftmost_leaf(*n).len() as int) =~= ct.skip(
                    leftmost_leaf(*ca.nodes@[0]).len() as int,
                ) + post);
                assert(byte_len(ct.skip(leftmost_leaf(*ca.nodes@[0]).len() as int) + post)
                    == byte_len(ct.skip(leftmost_leaf(*ca.nodes@[0]).len() as int)) + byte_len(
                    post,
                ));
                lemma_byte_len_bounds(post);
            }
            let child: &Node = &ca.nodes[0];
            let nc = replace_leftmost_leaf(child, t, Ghost(MIN_CHILDREN as int));
            proof {
                assert(node_wf_lo(nc, 0));
                assert(byte_len(node_text(nc)) <= usize::MAX) by {
                    let ct = child_text(ca.nodes@, 0);
                    let post = seq_text(ca.nodes@.skip(1));
                    assert(node_text(nc) == t@ + ct.skip(
                        leftmost_leaf(*ca.nodes@[0]).len() as int,
                    ));
                    assert(byte_len(node_text(nc)) == byte_len(t@) + byte_len(
                        ct.skip(leftmost_leaf(*ca.nodes@[0]).len() as int),
                    ));
                    lemma_byte_len_bounds(post);
                }
            }
            let ninfo = nc.text_info();
            let mut ca2 = ca.clone();
            let ghost ncv = nc;
            ca2.set(0, (ninfo, Arc::new(nc)));
            proof {
                assert(*ca2.nodes@[0] == ncv);
                assert(forall|k: int|
                    #![trigger ca2.nodes@[k]]
                    0 <= k < ca2.nodes@.len() && k != 0 ==> *ca2.nodes@[k] == *ca.nodes@[k]);
                lemma_slot_update(*ca, ca2, 0, ninfo, lo@);
                let whole = node_text(*n);
                let ct = child_text(ca.nodes@, 0);
                assert(seq_text(ca2.nodes@) == seq_text(ca.nodes@.take(0)) + node_text(ncv)
                    + seq_text(ca.nodes@.skip(1)));
                assert(seq_text(ca2.nodes@) =~= t@ + whole.skip(leftmost_leaf(*n).len() as int));
            }
            Node::Internal(ca2)
        },
    }
}

impl Node {
    /// Heals a possible grapheme seam at byte position `byte_pos`, which
    /// must lie on a junction between two adjacent leaves (or at an
    /// extreme): when the clusters around the junction straddle it, bytes
    /// move into the left leaf so the cluster lives wholly on one side.
    /// The stored text never changes, and afterwards the repaired
    /// junction's facing chunks form no straddling cluster.
    pub fn fix_grapheme_seam(&mut self, byte_pos: usize)
        requires
            root_wf(*old(self)),
            byte_len(node_text(*old(self))) <= usize::MAX,
            byte_pos <= byte_len(node_text(*old(self))),
            chunk_boundary(*old(self), byte_pos as int),
        ensures
            root_wf(*final(self)),
            node_text(*final(self)) == node_text(*old(self)),
            node_depth(*final(self)) == node_depth(*old(self)),
            *old(self) is Empty <==> *final(self) is Empty,
            seam_healed(*final(self), byte_pos as int),
    {
        let sref: &Node = self;
        let fixed = fix_seam_rec(sref, byte_pos, Ghost(2int));
        *self = fixed;
    }
}


/// The two chunks facing each other across a junction form no straddling
/// cluster: a side is empty or the junction is a grapheme boundary of
/// their concatenation.
pub open spec fn healed_pair(a: Seq<char>, c: Seq<char>) -> bool {
    a.len() == 0 || c.len() == 0 || crate::grapheme::grapheme_break_at(a + c, a.len() as int)
}

/// After a repair at byte `b`: `b` is an extreme, or some junction at or
/// after `b` among this node's children has a healed facing pair (the
/// repaired one, which may have moved right by the bytes pulled into the
/// left leaf), or the repair happened strictly inside one child.
pub open spec fn seam_healed(n: Node, b: int) -> bool
    decreases n,
{
    match n {
        Node::Empty => true,
        Node::Leaf(_) => true,
        Node::Internal(ca) => {
            ||| b <= 0
            ||| byte_len(seq_text(ca.nodes@)) <= b
            ||| exists|i: int|
                0 <= i < ca.nodes@.len() - 1 && b <= byte_len(
                    seq_text(#[trigger] ca.nodes@.take(i + 1)),
                ) && healed_pair(child_rightmost(ca.nodes@, i), child_leftmost(ca.nodes@, i + 1))
            ||| exists|i: int|
                0 <= i < ca.nodes@.len() && byte_len(seq_text(#[trigger] ca.nodes@.take(i))) < b
                    < byte_len(seq_text(ca.nodes@.take(i + 1))) && seam_healed(
                    *ca.nodes@[i],
                    b - byte_len(seq_text(ca.nodes@.take(i))),
                )
        },
    }
}

/// Rebalances the facing leaf chunks of two adjacent sibling subtrees
/// so no grapheme cluster straddles their junction; the pair's
/// concatenated text never changes and the right side never grows.
#[verifier::rlimit(100)]
#[verifier::spinoff_prover]
fn fix_pair_children(lchild: &Node, rchild: &Node) -> (r: (Node, Node))
    requires
        node_wf_lo(*lchild, MIN_CHILDREN as int),
        node_wf_lo(*rchild, MIN_CHILDREN as int),
        byte_len(node_text(*lchild)) + byte_len(node_text(*rchild)) <= usize::MAX,
    ensures
        node_wf_lo(r.0, MIN_CHILDREN as int),
        node_wf_lo(r.1, MIN_CHILDREN as int),
        node_depth(r.0) == node_depth(*lchild),
        node_depth(r.1) == node_depth(*rchild),
        !(*lchild is Empty) ==> !(r.0 is Empty),
        !(*rchild is Empty) ==> !(r.1 is Empty),
        node_text(r.0) + node_text(r.1) == node_text(*lchild) + node_text(*rchild),
        byte_len(node_text(r.1)) <= byte_len(node_text(*rchild)),
        byte_len(node_text(r.0)) >= byte_len(node_text(*lchild)),
        healed_pair(rightmost_leaf(r.0), leftmost_leaf(r.1)),
{
    let ghost lt = node_text(*lchild);
    let ghost rt = node_text(*rchild);
    let l_txt = rightmost_leaf_text(lchild);
    let r_txt = leftmost_leaf_text(rchild);
    let ghost rl = l_txt@;
    let ghost ll = r_txt@;
    proof {
        assert(rl.len() <= lt.len() && lt.skip(lt.len() - rl.len()) == rl) by {
            lemma_rightmost_suffix(*lchild);
        }
        assert(ll.len() <= rt.len() && rt.take(ll.len() as int) == ll) by {
            lemma_leftmost_prefix(*rchild);
        }
        assert(lt.take(lt.len() - rl.len()) + rl =~= lt);
        assert(ll + rt.skip(ll.len() as int) =~= rt);
        assert(byte_len(lt.take(lt.len() - rl.len()) + rl) == byte_len(
            lt.take(lt.len() - rl.len()),
        ) + byte_len(rl));
        assert(byte_len(ll + rt.skip(ll.len() as int)) == byte_len(ll) + byte_len(
            rt.skip(ll.len() as int),
        ));
        lemma_byte_len_bounds(rl);
        lemma_byte_len_bounds(ll);
        lemma_byte_len_bounds(lt.take(lt.len() - rl.len()));
        lemma_byte_len_bounds(rt.skip(ll.len() as int));
    }
    let (l2, r2) = crate::grapheme::fix_grapheme_seam_strings(l_txt, r_txt);
    proof {
        assert(byte_len(l2@ + r2@) == byte_len(l2@) + byte_len(r2@));
        assert(byte_len(rl + ll) == byte_len(rl) + byte_len(ll));
        lemma_byte_len_bounds(l2@);
        lemma_byte_len_bounds(r2@);
    }
    let nl = replace_rightmost_leaf(lchild, l2, Ghost(MIN_CHILDREN as int));
    let nr = replace_leftmost_leaf(rchild, r2, Ghost(MIN_CHILDREN as int));
    proof {
        assert(node_text(nl) + node_text(nr) =~= lt.take(lt.len() - rl.len()) + (l2@ + r2@)
            + rt.skip(ll.len() as int));
        assert(lt.take(lt.len() - rl.len()) + (rl + ll) + rt.skip(ll.len() as int) =~= lt + rt);
        assert(node_text(nl) + node_text(nr) == lt + rt);
        assert(byte_len(node_text(nr)) == byte_len(r2@) + byte_len(rt.skip(ll.len() as int)));
        assert(byte_len(node_text(nl)) == byte_len(lt.take(lt.len() - rl.len())) + byte_len(l2@));
        assert(rightmost_leaf(nl) == l2@);
        assert(leftmost_leaf(nr) == r2@);
        assert(l2@ + r2@ == rl + ll);
        assert(healed_pair(l2@, r2@));
    }
    (nl, nr)
}

/// Repairs the seam between adjacent children `i` and `i + 1` of a slot
/// array: their facing leaf chunks are rebalanced and both slots'
/// summaries recomputed.  The array's stored text never changes.
#[verifier::rlimit(100)]
#[verifier::spinoff_prover]
fn fix_seam_pair(ca: &ChildArray, i: usize, lo: Ghost<int>) -> (r: Node)
    requires
        2 <= lo@ <= MIN_CHILDREN,
        node_wf_lo(Node::Internal(*ca), lo@),
        byte_len(seq_text(ca.nodes@)) <= usize::MAX,
        i + 1 < ca.nodes@.len(),
    ensures
        node_wf_lo(r, lo@),
        node_text(r) == seq_text(ca.nodes@),
        node_depth(r) == node_depth(Node::Internal(*ca)),
        !(r is Empty),
        seam_healed(r, byte_len(seq_text(ca.nodes@.take(i + 1)))),
{
    proof {
        lemma_internal_setup(*ca, i as int);
        lemma_internal_setup(*ca, i + 1);
        lemma_byte_len_bounds(seq_text(ca.nodes@.take(i as int)));
        lemma_byte_len_bounds(seq_text(ca.nodes@.skip(i + 2)));
    }
    let ghost whole = seq_text(ca.nodes@);
    let ghost pre = seq_text(ca.nodes@.take(i as int));
    let ghost post2 = seq_text(ca.nodes@.skip(i + 2));
    let lchild: &Node = &ca.nodes[i];
    let rchild: &Node = &ca.nodes[i + 1];
    let ghost lt = child_text(ca.nodes@, i as int);
    let ghost rt = child_text(ca.nodes@, i + 1);
    proof {
        assert(seq_text(ca.nodes@.skip(i + 1)) == rt + post2) by {
            lemma_text_decompose(ca.nodes@.skip(i + 1), 0);
            assert(ca.nodes@.skip(i + 1).take(0) =~= Seq::empty());
            assert(ca.nodes@.skip(i + 1).skip(1) =~= ca.nodes@.skip(i + 2));
            assert(*ca.nodes@.skip(i + 1)[0] == *ca.nodes@[i + 1]);
            assert(seq_text(Seq::empty()) + rt =~= rt);
        }
        assert(whole == pre + lt + seq_text(ca.nodes@.skip(i + 1)));
        assert(whole =~= ((pre + lt) + rt) + post2);
        assert(byte_len(((pre + lt) + rt) + post2) == byte_len((pre + lt) + rt) + byte_len(
            post2,
        ));
        assert(byte_len((pre + lt) + rt) == byte_len(pre + lt) + byte_len(rt));
        assert(byte_len(pre + lt) == byte_len(pre) + byte_len(lt));
    }
    let (nl, nr) = fix_pair_children(lchild, rchild);
    let ghost nlv = nl;
    let ghost nrv = nr;
    proof {
        assert(node_wf_lo(nlv, 0));
        assert(node_wf_lo(nrv, 0));
        assert(byte_len(node_text(nlv) + node_text(nrv)) == byte_len(node_text(nlv)) + byte_len(
            node_text(nrv),
        ));
        lemma_byte_len_bounds(node_text(nlv));
        lemma_byte_len_bounds(node_text(nrv));
    }
    let nr_info = nr.text_info();
    let nl_info = nl.text_info();
    let mut ca2 = ca.clone();
    // replace the right slot first: its chunk never grows
    ca2.set(i + 1, (nr_info, Arc::new(nr)));
    let ghost ca2_snap = ca2;
    proof {
        assert(*ca2.nodes@[i + 1] == nrv);
        assert(forall|k: int|
            #![trigger ca2.nodes@[k]]
            0 <= k < ca2.nodes@.len() && k != i + 1 ==> *ca2.nodes@[k] == *ca.nodes@[k]);
        lemma_slot_update(*ca, ca2, i + 1, nr_info, lo@);
        assert(seq_text(ca2_snap.nodes@) == seq_text(ca.nodes@.take(i + 1)) + node_text(nrv)
            + seq_text(ca.nodes@.skip(i + 2)));
        assert(seq_text(ca.nodes@.take(i + 1)) == pre + lt) by {
            assert(ca.nodes@.take(i + 1).drop_last() =~= ca.nodes@.take(i as int));
            assert(*ca.nodes@.take(i + 1).last() == *ca.nodes@[i as int]);
        }
    }
    ca2.set(i, (nl_info, Arc::new(nl)));
    proof {
        assert(*ca2.nodes@[i as int] == nlv);
        assert(forall|k: int|
            #![trigger ca2.nodes@[k]]
            0 <= k < ca2.nodes@.len() && k != i ==> *ca2.nodes@[k] == *ca2_snap.nodes@[k]);
        assert(node_depth(nlv) == node_depth(*ca2_snap.nodes@[i as int]));
        assert(ca2_snap.nodes@.take(i as int) =~= ca.nodes@.take(i as int));
        assert(seq_text(ca2_snap.nodes@.skip(i + 1)) == node_text(nrv) + post2) by {
            lemma_text_decompose(ca2_snap.nodes@.skip(i + 1), 0);
            assert(ca2_snap.nodes@.skip(i + 1).take(0) =~= Seq::empty());
            assert(ca2_snap.nodes@.skip(i + 1).skip(1) =~= ca2_snap.nodes@.skip(i + 2));
            assert(ca2_snap.nodes@.skip(i + 2) =~= ca.nodes@.skip(i + 2));
            assert(*ca2_snap.nodes@.skip(i + 1)[0] == *ca2_snap.nodes@[i + 1]);
            assert(seq_text(Seq::empty()) + node_text(nrv) =~= node_text(nrv));
        }
        assert(byte_len(node_text(nrv) + post2) == byte_len(node_text(nrv)) + byte_len(post2));
        lemma_slot_update(ca2_snap, ca2, i as int, nl_info, lo@);
        assert(seq_text(ca2.nodes@) == pre + node_text(nlv) + seq_text(
            ca2_snap.nodes@.skip(i + 1),
        ));
        assert(pre + node_text(nlv) + (node_text(nrv) + post2) =~= pre + (node_text(nlv)
            + node_text(nrv)) + post2);
        assert(pre + (lt + rt) + post2 =~= ((pre + lt) + rt) + post2);
        assert(seq_text(ca2.nodes@) == whole);
        // the repaired junction sits at or after the requested one and
        // its facing pair is healed
        let fns = ca2.nodes@;
        assert(fns.take(i as int) =~= ca.nodes@.take(i as int));
        assert(fns.take(i + 1).drop_last() =~= fns.take(i as int));
        assert(*fns.take(i + 1).last() == *fns[i as int]);
        assert(seq_text(fns.take(i + 1)) == pre + node_text(nlv));
        assert(seq_text(ca.nodes@.take(i + 1)) == pre + lt) by {
            assert(ca.nodes@.take(i + 1).drop_last() =~= ca.nodes@.take(i as int));
            assert(*ca.nodes@.take(i + 1).last() == *ca.nodes@[i as int]);
        }
        assert(byte_len(pre + node_text(nlv)) == byte_len(pre) + byte_len(node_text(nlv)));
        assert(byte_len(pre + lt) == byte_len(pre) + byte_len(lt));
        assert(child_rightmost(fns, i as int) == rightmost_leaf(nlv));
        assert(child_leftmost(fns, i + 1) == leftmost_leaf(nrv));
        assert(0 <= i < fns.len() - 1 && byte_len(seq_text(ca.nodes@.take(i + 1))) <= byte_len(
            seq_text(fns.take(i + 1)),
        ) && healed_pair(child_rightmost(fns, i as int), child_leftmost(fns, i + 1)));
        assert(seam_healed(Node::Internal(ca2), byte_len(seq_text(ca.nodes@.take(i + 1)))));
    }
    Node::Internal(ca2)
}

/// Recursive seam repair; `lo` is the fan-out lower bound this node must
/// keep (2 at the root, `MIN_CHILDREN` below it).
#[verifier::rlimit(60)]
#[verifier::spinoff_prover]
fn fix_seam_rec(n: &Node, byte_pos: usize, lo: Ghost<int>) -> (r: Node)
    requires
        2 <= lo@ <= MIN_CHILDREN,
        node_wf_lo(*n, lo@),
        byte_len(node_text(*n)) <= usize::MAX,
        byte_pos <= byte_len(node_text(*n)),
        chunk_boundary(*n, byte_pos as int),
    ensures
        node_wf_lo(r, lo@),
        node_text(r) == node_text(*n),
        node_depth(r) == node_depth(*n),
        *n is Empty <==> r is Empty,
        seam_healed(r, byte_pos as int),
    decreases *n,
{
    match n {
        Node::Empty => Node::Empty,
        Node::Leaf(_) => node_copy(n),
        Node::Internal(ca) => {
            let total = n.byte_count();
            if byte_pos == 0 || byte_pos == total {
                let cp = node_copy(n);
                proof {
                    assert(node_text(cp) == seq_text(ca.nodes@));
                    if cp is Internal {
                        assert(seam_healed(cp, byte_pos as int));
                    }
                }
                return cp;
            }
            proof {
                lemma_wf_sums_fit(*ca);
                lemma_full_metrics(*ca);
            }
            let (i, acc) = ca.search_combine_info(Metric::Bytes, byte_pos);
            let inf = ca.info[i];
            let pos_in_child = byte_pos - acc.bytes;
            proof {
                lemma_internal_setup(*ca, i as int);
                lemma_byte_len_bounds(seq_text(ca.nodes@.take(i as int)));
                lemma_byte_len_bounds(seq_text(ca.nodes@.skip(i + 1)));
            }
            let ghost whole = node_text(*n);
            if pos_in_child == inf.bytes && i + 1 < ca.nodes.len() {
                let r2 = fix_seam_pair(ca, i, lo);
                proof {
                    assert(ca.nodes@.take(i + 1).drop_last() =~= ca.nodes@.take(i as int));
                    assert(*ca.nodes@.take(i + 1).last() == *ca.nodes@[i as int]);
                    assert(seq_text(ca.nodes@.take(i + 1)) == seq_text(ca.nodes@.take(i as int))
                        + child_text(ca.nodes@, i as int));
                    assert(byte_len(
                        seq_text(ca.nodes@.take(i as int)) + child_text(ca.nodes@, i as int),
                    ) == byte_len(seq_text(ca.nodes@.take(i as int))) + byte_len(
                        child_text(ca.nodes@, i as int),
                    ));
                    assert(byte_pos as int == byte_len(seq_text(ca.nodes@.take(i + 1))));
                }
                r2
            } else {
                proof {
                    if pos_in_child == inf.bytes && i + 1 == ca.nodes@.len() {
                        assert(byte_pos == byte_len(whole));
                        assert(false);
                    }
                    // the junction lies strictly inside child `i`
                    assert(ca.nodes@.take(i + 1).drop_last() =~= ca.nodes@.take(i as int));
                    assert(*ca.nodes@.take(i + 1).last() == *ca.nodes@[i as int]);
                    assert(seq_text(ca.nodes@.take(i + 1)) == seq_text(ca.nodes@.take(i as int))
                        + child_text(ca.nodes@, i as int));
                    assert(byte_len(
                        seq_text(ca.nodes@.take(i as int)) + child_text(ca.nodes@, i as int),
                    ) == byte_len(seq_text(ca.nodes@.take(i as int))) + byte_len(
                        child_text(ca.nodes@, i as int),
                    ));
                    assert(byte_len(seq_text(ca.nodes@.take(i as int))) < byte_pos < byte_len(
                        seq_text(ca.nodes@.take(i + 1)),
                    ));
                    lemma_cb_invert(ca.nodes@, i as int, byte_pos as int);
                }
                let child: &Node = &ca.nodes[i];
                let nc = fix_seam_rec(child, pos_in_child, Ghost(MIN_CHILDREN as int));
                let ghost ncv = nc;
                let ninfo = nc.text_info();
                let mut ca2 = ca.clone();
                ca2.set(i, (ninfo, Arc::new(nc)));
                proof {
                    assert(*ca2.nodes@[i as int] == ncv);
                    assert(forall|k: int|
                        #![trigger ca2.nodes@[k]]
                        0 <= k < ca2.nodes@.len() && k != i ==> *ca2.nodes@[k] == *ca.nodes@[k]);
                    lemma_slot_update(*ca, ca2, i as int, ninfo, lo@);
                    assert(seq_text(ca2.nodes@) =~= whole);
                    // the repair happened inside child `i` of the result
                    let fns = ca2.nodes@;
                    assert(fns.take(i as int) =~= ca.nodes@.take(i as int));
                    assert(fns.take(i + 1).drop_last() =~= fns.take(i as int));
                    assert(*fns.take(i + 1).last() == *fns[i as int]);
                    assert(seq_text(fns.take(i + 1)) == seq_text(fns.take(i as int)) + node_text(
                        ncv,
                    ));
                    assert(byte_len(seq_text(fns.take(i as int)) + node_text(ncv)) == byte_len(
                        seq_text(fns.take(i as int)),
                    ) + byte_len(node_text(ncv)));
                    assert(byte_len(seq_text(fns.take(i as int))) < byte_pos < byte_len(
                        seq_text(fns.take(i + 1)),
                    ));
                    assert(seam_healed(ncv, byte_pos - byte_len(seq_text(fns.take(i as int)))));
                    assert(seam_healed(Node::Internal(ca2), byte_pos as int));
                }
                Node::Internal(ca2)
            }
        },
    }
}

} // verus!
