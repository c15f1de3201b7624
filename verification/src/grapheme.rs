//! The extended-grapheme-cluster boundary oracle and the seam repair
//! routine over a pair of adjacent chunks.
//!
//! Where a boundary falls is decided by the Unicode segmentation rules;
//! the result is named by the spec function `grapheme_break_at` and
//! depends on the string's scalars alone.

use vstd::prelude::*;

verus! {

/// Whether scalar position `i` of `s` is an extended grapheme cluster
/// boundary, as the Unicode segmentation rules decide it.
pub uninterp spec fn grapheme_break_at(s: Seq<char>, i: int) -> bool;

/// Relies on `unicode_segmentation::GraphemeCursor::is_boundary`, handed
/// the whole string as one chunk: whether the cursor position is an
/// extended grapheme cluster boundary.  The crate's source decides from
/// the string's scalars alone, and treats position 0 and the end of the
/// string as boundaries unconditionally.
#[verifier::external_body]
pub fn str_is_grapheme_boundary(s: &str, char_idx: usize) -> (r: bool)
    requires
        char_idx <= s@.len(),
    ensures
        r == grapheme_break_at(s@, char_idx as int),
        char_idx == 0 ==> r,
        char_idx == s@.len() ==> r,
{
    let byte_idx = s
        .char_indices()
        .map(|p| p.0)
        .chain(core::iter::once(s.len()))
        .nth(char_idx)
        .unwrap();
    let mut cur = unicode_segmentation::GraphemeCursor::new(byte_idx, s.len(), true);
    cur.is_boundary(s, 0).unwrap()
}

/// The smallest grapheme boundary of `s` strictly after `char_idx`,
/// which exists because the end of the string is a boundary.
pub fn str_next_grapheme_boundary(s: &str, char_idx: usize) -> (r: usize)
    requires
        char_idx <= s@.len(),
    ensures
        char_idx == s@.len() ==> r == char_idx,
        char_idx < s@.len() ==> char_idx < r <= s@.len(),
        char_idx < s@.len() ==> grapheme_break_at(s@, r as int),
        forall|j: int| char_idx < j < r ==> !grapheme_break_at(s@, j),
    decreases 0int,
{
    let n = s.unicode_len();
    if char_idx == n {
        return char_idx;
    }
    let mut j = char_idx + 1;
    loop
        invariant
            char_idx < j <= n,
            n == s@.len(),
            forall|t: int| char_idx < t < j ==> !grapheme_break_at(s@, t),
        decreases n - j,
    {
        if str_is_grapheme_boundary(s, j) {
            return j;
        }
        proof {
            assert(j < n);
        }
        j = j + 1;
    }
}

/// The largest grapheme boundary of `s` strictly before `char_idx`,
/// clamped to 0.
pub fn str_prev_grapheme_boundary(s: &str, char_idx: usize) -> (r: usize)
    requires
        char_idx <= s@.len(),
    ensures
        char_idx == 0 ==> r == 0,
        char_idx > 0 ==> r < char_idx,
        char_idx > 0 ==> grapheme_break_at(s@, r as int),
        forall|j: int| r < j < char_idx ==> !grapheme_break_at(s@, j),
{
    if char_idx == 0 {
        return 0;
    }
    let mut j = char_idx - 1;
    loop
        invariant
            0 <= j < char_idx <= s@.len(),
            forall|t: int| j < t < char_idx ==> !grapheme_break_at(s@, t),
        decreases j,
    {
        if str_is_grapheme_boundary(s, j) {
            return j;
        }
        proof {
            assert(j > 0);
        }
        j = j - 1;
    }
}


/// No grapheme boundary lies strictly inside `t`: such a chunk cannot be
/// split anywhere without breaking a cluster.
pub open spec fn no_interior_boundary(t: Seq<char>) -> bool {
    forall|p: int| 0 < p < t.len() ==> !grapheme_break_at(t, p)
}

/// `cl` is the grapheme boundary nearest to the scalar `cmid` sitting at
/// the byte midpoint of `t`: the midpoint itself, or the closest boundary
/// on one side with none between.
pub open spec fn split_near_midpoint(t: Seq<char>, cl: int) -> bool {
    let cmid = crate::text_info::chars_in_bytes(
        t,
        crate::text_info::byte_len(t) - crate::text_info::byte_len(t) / 2,
    );
    ||| cl == cmid
    ||| (cl < cmid && forall|j: int| cl < j <= cmid ==> !grapheme_break_at(t, j))
    ||| (cl > cmid && forall|j: int| cmid <= j < cl ==> !grapheme_break_at(t, j))
}

/// The grapheme boundary of `s` nearest to `cmid`: `cmid` itself when it
/// is one, else the closest boundary below (preferred) or above.  A
/// result at an extreme means the interior holds no boundary at all.
pub fn str_nearest_interior_boundary(s: &str, cmid: usize) -> (r: usize)
    requires
        cmid <= s@.len(),
    ensures
        r <= s@.len(),
        0 < r < s@.len() ==> grapheme_break_at(s@, r as int) && (r == cmid || (r < cmid
            && forall|j: int| r < j <= cmid ==> !grapheme_break_at(s@, j)) || (r > cmid
            && forall|j: int| cmid <= j < r ==> !grapheme_break_at(s@, j))),
        ((r == 0 || r == s@.len()) && 0 < cmid < s@.len()) ==> no_interior_boundary(s@),
{
    if str_is_grapheme_boundary(s, cmid) {
        return cmid;
    }
    let p = str_prev_grapheme_boundary(s, cmid);
    if p > 0 {
        return p;
    }
    let q = str_next_grapheme_boundary(s, cmid);
    proof {
        if (q == 0 || q == s@.len()) && 0 < cmid < s@.len() {
            assert forall|t: int| 0 < t < s@.len() implies !grapheme_break_at(s@, t) by {
                if t < cmid {
                } else if t == cmid {
                } else {
                }
            }
        }
    }
    q
}

/// Repairs the seam between two adjacent chunks: when the junction is
/// not a grapheme cluster boundary of the concatenation, the rest of the
/// straddling cluster is moved into the left chunk, so the cluster lives
/// wholly on one side.  The concatenated content never changes.
pub fn fix_grapheme_seam_strings(l: String, r: String) -> (res: (String, String))
    ensures
        res.0@ + res.1@ == l@ + r@,
        res.0@.len() == 0 || res.1@.len() == 0 || grapheme_break_at(
            l@ + r@,
            res.0@.len() as int,
        ),
        crate::text_info::byte_len(res.1@) <= crate::text_info::byte_len(r@),
        crate::text_info::byte_len(res.0@) >= crate::text_info::byte_len(l@),
{
    broadcast use crate::text_info::lemma_byte_len_additive;

    let lchars = l.as_str().unicode_len();
    let rchars = r.as_str().unicode_len();
    if lchars == 0 || rchars == 0 {
        return (l, r);
    }
    let ghost lv = l@;
    let ghost rv = r@;
    let joined = l.concat(r.as_str());
    let n = joined.as_str().unicode_len();
    let seam = if str_is_grapheme_boundary(joined.as_str(), lchars) {
        lchars
    } else {
        str_next_grapheme_boundary(joined.as_str(), lchars)
    };
    let left = joined.as_str().substring_char(0, seam).to_owned();
    let right = joined.as_str().substring_char(seam, n).to_owned();
    proof {
        assert(left@ =~= joined@.take(seam as int));
        assert(right@ =~= joined@.skip(seam as int));
        assert(left@ + right@ =~= joined@);
        // the right result is a suffix of the right input
        assert(joined@.skip(lchars as int) =~= rv);
        assert(rv.take(seam - lchars) + rv.skip(seam - lchars) =~= rv);
        assert(crate::text_info::byte_len(rv.take(seam - lchars) + rv.skip(seam - lchars))
            == crate::text_info::byte_len(rv.take(seam - lchars))
            + crate::text_info::byte_len(rv.skip(seam - lchars)));
        assert(right@ =~= rv.skip(seam - lchars));
        crate::text_info::lemma_byte_len_bounds(rv.take(seam - lchars));
        // the left result extends the left input
        assert(left@ =~= lv + rv.take(seam - lchars));
        assert(crate::text_info::byte_len(lv + rv.take(seam - lchars))
            == crate::text_info::byte_len(lv) + crate::text_info::byte_len(
            rv.take(seam - lchars),
        ));
    }
    (left, right)
}

} // verus!
