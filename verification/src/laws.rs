use vstd::prelude::*;
use crate::node::{Node, value_wf, members_wf, items_wf, LBRACE, LBRACKET, RBRACE};
use crate::locate::{
    find_pair, key_location, has_key, without_pair, extracted_value, appended, key_node,
    pair_bytes, comma_seq,
};
use crate::splice::splice_out;

verus! {

/// Flatten invariant, member part: every node of a well-formed member
/// region keeps its whole subtree inside the region.
proof fn lemma_flatten_members(ns: Seq<Node>, bs: Seq<u8>)
    requires
        members_wf(ns, bs),
    ensures
        forall|i: int|
            0 <= i < ns.len() ==> i + 1 + #[trigger] ns[i].descendant_count <= ns.len(),
    decreases ns.len(), 1int,
{
    if ns.len() > 0 {
        let kl = ns[0].byte_length as int;
        let vc = ns[1].descendant_count as int;
        let vl = ns[1].byte_length as int;
        let sub = ns.subrange(1, 2 + vc);
        lemma_flatten_invariant(sub, bs.subrange(kl + 1, kl + 1 + vl));
        if ns.len() > 2 + vc {
            lemma_flatten_members(ns.skip(2 + vc), bs.skip(kl + 1 + vl + 1));
        }
        assert forall|i: int|
            0 <= i < ns.len() implies i + 1 + #[trigger] ns[i].descendant_count <= ns.len() by {
            if 1 <= i < 2 + vc {
                assert(sub[i - 1] == ns[i]);
            } else if i >= 2 + vc {
                assert(ns.skip(2 + vc)[i - (2 + vc)] == ns[i]);
            }
        }
    }
}

/// Flatten invariant, item part: the same for a well-formed item region.
proof fn lemma_flatten_items(ns: Seq<Node>, bs: Seq<u8>)
    requires
        items_wf(ns, bs),
    ensures
        forall|i: int|
            0 <= i < ns.len() ==> i + 1 + #[trigger] ns[i].descendant_count <= ns.len(),
    decreases ns.len(), 1int,
{
    if ns.len() > 0 {
        let vc = ns[0].descendant_count as int;
        let vl = ns[0].byte_length as int;
        let sub = ns.subrange(0, 1 + vc);
        lemma_flatten_invariant(sub, bs.subrange(0, vl));
        if ns.len() > 1 + vc {
            lemma_flatten_items(ns.skip(1 + vc), bs.skip(vl + 1));
        }
        assert forall|i: int|
            0 <= i < ns.len() implies i + 1 + #[trigger] ns[i].descendant_count <= ns.len() by {
            if 0 <= i < 1 + vc {
                assert(sub[i] == ns[i]);
            } else {
                assert(ns.skip(1 + vc)[i - (1 + vc)] == ns[i]);
            }
        }
    }
}

/// Flatten invariant: in a well-formed value, the root counts exactly the
/// rest of the array as its descendants, its byte length is exactly the
/// buffer's, and every node's subtree slice
/// `nodes[i + 1 .. i + 1 + descendant_count]` lies inside the array. Every
/// mutator ensures well-formedness, so this holds after every mutator call.
pub proof fn lemma_flatten_invariant(ns: Seq<Node>, bs: Seq<u8>)
    requires
        value_wf(ns, bs),
    ensures
        ns.len() >= 1,
        ns[0].descendant_count as int == ns.len() - 1,
        ns[0].byte_length as int == bs.len(),
        forall|i: int|
            0 <= i < ns.len() ==> i + 1 + #[trigger] ns[i].descendant_count <= ns.len(),
    decreases ns.len(), 0int,
{
    if bs[0] == LBRACE {
        lemma_flatten_members(ns.skip(1), bs.skip(1));
    } else if bs[0] == LBRACKET {
        lemma_flatten_items(ns.skip(1), bs.skip(1));
    }
    assert forall|i: int|
        0 <= i < ns.len() implies i + 1 + #[trigger] ns[i].descendant_count <= ns.len() by {
        if i >= 1 {
            assert(ns.skip(1)[i - 1] == ns[i]);
        }
    }
}

/// A well-formed member region always ends with the closing brace.
proof fn lemma_members_last_brace(ns: Seq<Node>, bs: Seq<u8>)
    requires
        members_wf(ns, bs),
    ensures
        bs.len() >= 1,
        bs[bs.len() - 1] == RBRACE,
    decreases ns.len(),
{
    if ns.len() > 0 {
        let kl = ns[0].byte_length as int;
        let vc = ns[1].descendant_count as int;
        let vl = ns[1].byte_length as int;
        if ns.len() > 2 + vc {
            lemma_members_last_brace(ns.skip(2 + vc), bs.skip(kl + 1 + vl + 1));
        }
    }
}

/// After appending a pair whose key is absent from the region, the scan
/// finds exactly the appended pair.
proof fn lemma_find_pair_appended(
    mns: Seq<Node>,
    mbs: Seq<u8>,
    key: Seq<u8>,
    vns: Seq<Node>,
    vbs: Seq<u8>,
)
    requires
        members_wf(mns, mbs),
        value_wf(vns, vbs),
        find_pair(mns, mbs, key) is None,
        key.len() + 2 <= u32::MAX,
    ensures
        find_pair(
            mns + seq![key_node(key)] + vns,
            mbs.subrange(0, mbs.len() - 1) + comma_seq(mns.len() > 0) + pair_bytes(key, vbs)
                + seq![RBRACE],
            key,
        ) == Some((mns.len() as int, mbs.len() - 1 + comma_seq(mns.len() > 0).len())),
    decreases mns.len(),
{
    let new_ns = mns + seq![key_node(key)] + vns;
    let new_bs = mbs.subrange(0, mbs.len() - 1) + comma_seq(mns.len() > 0) + pair_bytes(key, vbs)
        + seq![RBRACE];
    let kl: int = key.len() as int + 2;
    if mns.len() == 0 {
        assert(new_ns[0] == key_node(key));
        assert(new_ns[1] == vns[0]);
        assert(new_bs.subrange(1, kl - 1) =~= key);
        assert(find_pair(new_ns, new_bs, key) == Some((0int, 0int)));
    } else {
        let kl0 = mns[0].byte_length as int;
        let vc0 = mns[1].descendant_count as int;
        let vl0 = mns[1].byte_length as int;
        let dn = 2 + vc0;
        let db = kl0 + 1 + vl0 + 1;
        assert(new_ns[0] == mns[0]);
        assert(new_ns[1] == mns[1]);
        assert(new_bs.subrange(1, kl0 - 1) =~= mbs.subrange(1, kl0 - 1));
        assert(!(kl0 >= 2 && key.len() == kl0 - 2 && mbs.subrange(1, kl0 - 1) == key));
        if mns.len() == dn {
            lemma_find_pair_appended(Seq::<Node>::empty(), seq![RBRACE], key, vns, vbs);
            assert(new_ns.skip(dn) =~= Seq::<Node>::empty() + seq![key_node(key)] + vns);
            assert(new_bs.skip(db) =~= seq![RBRACE].subrange(0, 0) + comma_seq(false) + pair_bytes(
                key,
                vbs,
            ) + seq![RBRACE]);
            assert(find_pair(new_ns, new_bs, key) == Some((dn, db)));
        } else {
            lemma_members_last_brace(mns.skip(dn), mbs.skip(db));
            lemma_find_pair_appended(mns.skip(dn), mbs.skip(db), key, vns, vbs);
            assert(new_ns.skip(dn) =~= mns.skip(dn) + seq![key_node(key)] + vns);
            assert(new_bs.skip(db) =~= mbs.skip(db).subrange(0, mbs.skip(db).len() - 1)
                + comma_seq(mns.skip(dn).len() > 0) + pair_bytes(key, vbs) + seq![RBRACE]);
        }
    }
}

/// Delete/insert inverse: on a well-formed object that does not yet hold
/// `key`, appending the pair `key`: `value` and then deleting that key
/// under the separator-ownership rule restores the original node array and
/// byte buffer exactly, and extracts exactly the value that was added.
pub proof fn lemma_add_remove_roundtrip(
    ns: Seq<Node>,
    bs: Seq<u8>,
    key: Seq<u8>,
    vns: Seq<Node>,
    vbs: Seq<u8>,
)
    requires
        value_wf(ns, bs),
        bs[0] == LBRACE,
        value_wf(vns, vbs),
        !has_key(ns, bs, key),
        bs.len() + key.len() + vbs.len() + 4 <= u32::MAX,
        ns.len() + vns.len() <= u32::MAX,
    ensures
        ({
            let an = appended(ns, bs, key, vns, vbs).0;
            let ab = appended(ns, bs, key, vns, vbs).1;
            let loc0 = ns.len() as int;
            let loc1 = bs.len() - 1 + comma_seq(ns.len() > 1).len();
            &&& key_location(an, ab, key) == Some((loc0, loc1))
            &&& without_pair(an, ab, loc0, loc1) == (ns, bs)
            &&& extracted_value(an, ab, loc0, loc1) == (vns, vbs)
        }),
{
    let mn = ns.skip(1);
    let mb = bs.skip(1);
    let an = appended(ns, bs, key, vns, vbs).0;
    let ab = appended(ns, bs, key, vns, vbs).1;
    let loc0 = ns.len() as int;
    let loc1 = bs.len() - 1 + comma_seq(ns.len() > 1).len();
    assert(find_pair(mn, mb, key) is None);
    lemma_members_last_brace(mn, mb);
    lemma_find_pair_appended(mn, mb, key, vns, vbs);
    assert(an.skip(1) =~= mn + seq![key_node(key)] + vns);
    assert(ab.skip(1) =~= mb.subrange(0, mb.len() - 1) + comma_seq(mn.len() > 0) + pair_bytes(
        key,
        vbs,
    ) + seq![RBRACE]);
    assert(key_location(an, ab, key) == Some((loc0, loc1)));
    let kl: int = key.len() as int + 2;
    let vc = vns[0].descendant_count as int;
    let vl = vns[0].byte_length as int;
    assert(an[loc0] == key_node(key));
    assert(an[loc0 + 1] == vns[0]);
    assert(loc0 + 2 + vc == an.len());
    // the appended pair is deleted with the very bytes the append inserted
    assert(splice_out(ab, bs.len() - 1, ab.len() - 1) =~= bs);
    assert(without_pair(an, ab, loc0, loc1).1 == bs);
    assert(splice_out(an, loc0, loc0 + 2 + vc).update(0, ns[0]) =~= ns);
    assert(without_pair(an, ab, loc0, loc1).0 == ns);
    assert(extracted_value(an, ab, loc0, loc1).0 =~= vns);
    assert(extracted_value(an, ab, loc0, loc1).1 =~= vbs);
}

} // verus!
