use vstd::prelude::*;
use crate::node::{Node, value_wf, members_wf, items_wf, LBRACE, LBRACKET};

verus! {

/// The traversal skipping algorithm as a position list: starting from a
/// child at node index `i` and byte offset `off`, each step skips the
/// child's whole subtree (`descendant_count + 1` nodes) and its span plus
/// the one delimiter byte that follows (`byte_length + 1` bytes).
pub open spec fn child_positions(ns: Seq<Node>, i: int, off: int) -> Seq<(int, int)>
    decreases ns.len() - i,
{
    if i < 0 || i >= ns.len() {
        Seq::empty()
    } else {
        let dc = ns[i].descendant_count as int;
        let bl = ns[i].byte_length as int;
        if i + 1 + dc > ns.len() {
            Seq::empty()
        } else {
            seq![(i, off)] + child_positions(ns, i + 1 + dc, off + bl + 1)
        }
    }
}

/// The walk from `(i, off)` keeps every step in bounds: each child's
/// subtree fits in the node array and each span plus its delimiter fits in
/// the buffer.
pub open spec fn walk_ok(ns: Seq<Node>, bs: Seq<u8>, i: int, off: int) -> bool
    decreases ns.len() - i,
{
    if i < 0 || i >= ns.len() {
        true
    } else {
        let dc = ns[i].descendant_count as int;
        let bl = ns[i].byte_length as int;
        &&& i + 1 + dc <= ns.len()
        &&& off + bl + 1 <= bs.len()
        &&& walk_ok(ns, bs, i + 1 + dc, off + bl + 1)
    }
}

/// A view of a sequence of positions as mathematical pairs.
pub open spec fn pos_view(s: Seq<(usize, usize)>) -> Seq<(int, int)> {
    Seq::new(s.len(), |j: int| (s[j].0 as int, s[j].1 as int))
}

proof fn lemma_walk_shift(ns: Seq<Node>, bs: Seq<u8>, d: int, e: int, i: int, off: int)
    requires
        0 <= d <= i,
        0 <= e <= off,
        d <= ns.len(),
        e <= bs.len(),
        walk_ok(ns.skip(d), bs.skip(e), i - d, off - e),
    ensures
        walk_ok(ns, bs, i, off),
    decreases ns.len() - i,
{
    if i < ns.len() {
        assert(ns.skip(d)[i - d] == ns[i]);
        let dc = ns[i].descendant_count as int;
        let bl = ns[i].byte_length as int;
        lemma_walk_shift(ns, bs, d, e, i + 1 + dc, off + bl + 1);
    }
}

proof fn lemma_members_walk(ns: Seq<Node>, bs: Seq<u8>)
    requires
        members_wf(ns, bs),
    ensures
        walk_ok(ns, bs, 0, 0),
    decreases ns.len(),
{
    if ns.len() > 0 {
        let kl = ns[0].byte_length as int;
        let vc = ns[1].descendant_count as int;
        let vl = ns[1].byte_length as int;
        if ns.len() > 2 + vc {
            lemma_members_walk(ns.skip(2 + vc), bs.skip(kl + 1 + vl + 1));
            lemma_walk_shift(ns, bs, 2 + vc, kl + 1 + vl + 1, 2 + vc, kl + 1 + vl + 1);
        }
        assert(walk_ok(ns, bs, 2 + vc, kl + 1 + vl + 1));
        assert(walk_ok(ns, bs, 1, kl + 1));
        assert(walk_ok(ns, bs, 0, 0));
    }
}

proof fn lemma_items_walk(ns: Seq<Node>, bs: Seq<u8>)
    requires
        items_wf(ns, bs),
    ensures
        walk_ok(ns, bs, 0, 0),
    decreases ns.len(),
{
    if ns.len() > 0 {
        let vc = ns[0].descendant_count as int;
        let vl = ns[0].byte_length as int;
        if ns.len() > 1 + vc {
            lemma_items_walk(ns.skip(1 + vc), bs.skip(vl + 1));
            lemma_walk_shift(ns, bs, 1 + vc, vl + 1, 1 + vc, vl + 1);
        }
        assert(walk_ok(ns, bs, 1 + vc, vl + 1));
        assert(walk_ok(ns, bs, 0, 0));
    }
}

/// In a well-formed value the whole child walk from the first child stays
/// in bounds.
pub proof fn lemma_child_walk(ns: Seq<Node>, bs: Seq<u8>)
    requires
        value_wf(ns, bs),
    ensures
        walk_ok(ns, bs, 1, 1),
{
    if bs[0] == LBRACE {
        lemma_members_walk(ns.skip(1), bs.skip(1));
        lemma_walk_shift(ns, bs, 1, 1, 1, 1);
    } else if bs[0] == LBRACKET {
        lemma_items_walk(ns.skip(1), bs.skip(1));
        lemma_walk_shift(ns, bs, 1, 1, 1, 1);
    }
}

} // verus!
