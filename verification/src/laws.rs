//! General laws of the library, stated over the same spec functions its
//! public contracts use.

use vstd::prelude::*;

verus! {

use std::sync::Arc;
use crate::node::{Node, node_text, node_depth, node_wf_lo, summaries_consistent,
    lemma_wf_integrity, MAX_CHILDREN, MIN_CHILDREN};
use crate::rope::Rope;
use crate::text_info::{byte_len, line_breaks, line_start, chars_in_bytes, char_width,
    lemma_cib_exact, lemma_byte_len_take_succ, lemma_byte_len_take_mono, lemma_char_width,
    lemma_line_roundtrip};
use crate::grapheme::grapheme_break_at;

/// Every well-formed rope passes the integrity re-check: the law behind
/// `Rope::verify_integrity` answering true on any rope the library
/// produces.
pub proof fn lemma_rope_integrity(r: Rope)
    requires
        r.wf(),
    ensures
        summaries_consistent(*r.root),
{
    assert(summaries_consistent(*r.root)) by {
        lemma_wf_integrity(*r.root);
    }
}

/// All leaves of a subtree sit at one and the same depth.
pub open spec fn balanced(n: Node) -> bool
    decreases n,
{
    match n {
        Node::Empty => true,
        Node::Leaf(_) => true,
        Node::Internal(ca) => {
            &&& (forall|i: int|
                0 <= i < ca.nodes@.len() ==> node_depth(#[trigger] *ca.nodes@[i]) == node_depth(
                    *ca.nodes@[0],
                ))
            &&& (forall|i: int| 0 <= i < ca.nodes@.len() ==> balanced(#[trigger] *ca.nodes@[i]))
        },
    }
}

/// Every well-formed tree is balanced: all leaves at equal depth.
pub proof fn lemma_wf_balanced(n: Node)
    requires
        node_wf_lo(n, 0),
    ensures
        balanced(n),
    decreases n,
{
    match n {
        Node::Empty => {},
        Node::Leaf(_) => {},
        Node::Internal(ca) => {
            assert forall|i: int| 0 <= i < ca.nodes@.len() implies balanced(
                #[trigger] *ca.nodes@[i],
            ) by {
                assert(node_wf_lo(*ca.nodes@[i], MIN_CHILDREN as int));
                assert(node_wf_lo(*ca.nodes@[i], 0));
                lemma_wf_balanced(*ca.nodes@[i]);
            }
        },
    }
}

/// Fan-out bounds: this node has between `lo` and `MAX_CHILDREN`
/// children, and every deeper internal node between `MIN_CHILDREN` and
/// `MAX_CHILDREN`.
pub open spec fn fanout_within(n: Node, lo: int) -> bool
    decreases n,
{
    match n {
        Node::Empty => true,
        Node::Leaf(_) => true,
        Node::Internal(ca) => {
            &&& lo <= ca.nodes@.len() <= MAX_CHILDREN
            &&& (forall|i: int|
                0 <= i < ca.nodes@.len() ==> fanout_within(
                    #[trigger] *ca.nodes@[i],
                    MIN_CHILDREN as int,
                ))
        },
    }
}

/// Every well-formed tree keeps the fan-out bounds: a root with at least
/// two children, every other internal node with `MIN_CHILDREN` to
/// `MAX_CHILDREN`.
pub proof fn lemma_wf_fanout(n: Node, lo: int)
    requires
        node_wf_lo(n, lo),
    ensures
        fanout_within(n, lo),
    decreases n,
{
    match n {
        Node::Empty => {},
        Node::Leaf(_) => {},
        Node::Internal(ca) => {
            assert forall|i: int| 0 <= i < ca.nodes@.len() implies fanout_within(
                #[trigger] *ca.nodes@[i],
                MIN_CHILDREN as int,
            ) by {
                assert(node_wf_lo(*ca.nodes@[i], MIN_CHILDREN as int));
                lemma_wf_fanout(*ca.nodes@[i], MIN_CHILDREN as int);
            }
        },
    }
}

/// Round trip between scalar and byte indices: converting scalar index
/// `i` to its byte offset and back gives `i` again, for every boundary.
/// This is the law behind `byte_to_char(char_to_byte(i)) == i`.
pub proof fn lemma_byte_char_roundtrip(s: Seq<char>, i: int)
    requires
        0 <= i <= s.len(),
    ensures
        chars_in_bytes(s, byte_len(s.take(i))) == i,
{
    if i < s.len() {
        lemma_byte_len_take_succ(s, i);
        lemma_char_width(s[i]);
    }
    lemma_cib_exact(s, byte_len(s.take(i)), i);
}

/// Round trip between scalar and line indices: the start of the line
/// containing scalar `i` is at or before `i`, with equality exactly when
/// `i` is a line start.  This is the law behind
/// `line_to_char(char_to_line(i)) <= i`.
pub proof fn lemma_line_char_roundtrip(s: Seq<char>, i: int)
    requires
        0 <= i <= s.len(),
    ensures
        line_start(s, line_breaks(s.take(i))) <= i,
        line_start(s, line_breaks(s.take(i))) == i <==> (i == 0 || crate::text_info::is_line_break(
            s[i - 1],
        )),
{
    lemma_line_roundtrip(s, i);
}

/// Round trip between the two grapheme searches: when `b` is itself a
/// boundary, the largest boundary before the smallest boundary after `b`
/// is `b` again.  The hypotheses are exactly what
/// `next_grapheme_boundary` and `prev_grapheme_boundary` ensure of their
/// results `nb` and `pb`.
pub proof fn lemma_prev_next_grapheme_roundtrip(s: Seq<char>, b: int, nb: int, pb: int)
    requires
        0 <= b < nb,
        grapheme_break_at(s, b),
        forall|j: int| b < j < nb ==> !grapheme_break_at(s, j),
        0 <= pb < nb,
        pb == 0 || grapheme_break_at(s, pb),
        forall|j: int| pb < j < nb ==> !grapheme_break_at(s, j),
    ensures
        pb == b,
{
    if pb < b {
        assert(!grapheme_break_at(s, b));
    }
    if pb > b {
        assert(!grapheme_break_at(s, pb));
    }
}

/// A full-range slice carries the whole text: the law behind
/// `slice(0, len_chars()).to_rope()` equalling the rope itself.
pub proof fn lemma_full_slice_text(s: Seq<char>)
    ensures
        s.subrange(0, s.len() as int) == s,
{
    assert(s.subrange(0, s.len() as int) =~= s);
}

/// Slicing a slice composes: the sub-slice `[k, l)` of the slice `[i, j)`
/// carries the same text as the direct slice `[i + k, i + l)`.
pub proof fn lemma_slice_of_slice(s: Seq<char>, i: int, j: int, k: int, l: int)
    requires
        0 <= i <= j <= s.len(),
        0 <= k <= l <= j - i,
    ensures
        s.subrange(i, j).subrange(k, l) == s.subrange(i + k, i + l),
{
    assert(s.subrange(i, j).subrange(k, l) =~= s.subrange(i + k, i + l));
}

} // verus!
