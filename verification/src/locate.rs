use vstd::prelude::*;
use crate::node::{Node, value_wf, members_wf, QUOTE, COLON, COMMA, LBRACE, RBRACE};
use crate::splice::splice_out;

verus! {

/// Shifts a located (node index, byte offset) pair by fixed amounts, for
/// translating positions in a suffix of the member region back to positions
/// in the whole of it.
pub open spec fn shift_loc(p: Option<(int, int)>, di: int, doff: int) -> Option<(int, int)> {
    match p {
        Some(q) => Some((q.0 + di, q.1 + doff)),
        None => None,
    }
}

/// Walks a member region (`ns`, `bs` as in `members_wf`) looking for the
/// first pair whose key interior (the bytes between the quotes) equals
/// `key`. Returns the pair's key-node index and key byte offset within the
/// region, or `None` when no key matches.
pub open spec fn find_pair(ns: Seq<Node>, bs: Seq<u8>, key: Seq<u8>) -> Option<(int, int)>
    decreases ns.len(),
{
    if ns.len() < 2 {
        None
    } else {
        let kl = ns[0].byte_length as int;
        let vc = ns[1].descendant_count as int;
        let vl = ns[1].byte_length as int;
        if kl >= 2 && key.len() == kl - 2 && bs.subrange(1, kl - 1) == key {
            Some((0, 0))
        } else if 2 + vc > ns.len() {
            None
        } else {
            shift_loc(
                find_pair(ns.skip(2 + vc), bs.skip(kl + 1 + vl + 1), key),
                2 + vc,
                kl + 1 + vl + 1,
            )
        }
    }
}

/// Where `key` sits in a whole value: `None` unless the value is an object
/// holding the key; otherwise the key node's index in the node array and the
/// key's byte offset in the buffer.
pub open spec fn key_location(ns: Seq<Node>, bs: Seq<u8>, key: Seq<u8>) -> Option<(int, int)> {
    if bs.len() >= 1 && bs[0] == LBRACE {
        shift_loc(find_pair(ns.skip(1), bs.skip(1), key), 1, 1)
    } else {
        None
    }
}

pub open spec fn has_key(ns: Seq<Node>, bs: Seq<u8>, key: Seq<u8>) -> bool {
    key_location(ns, bs, key) is Some
}

/// Separator-ownership rule, start of the byte range a delete removes: a
/// pair that is not the last member takes the comma after it, the last
/// member (of an object of several) takes the comma before it, and a sole
/// member takes no comma at all.
pub open spec fn removal_byte_start(ns: Seq<Node>, i: int, off: int) -> int {
    let vc = ns[i + 1].descendant_count as int;
    if i == 1 || i + 2 + vc < ns.len() {
        off
    } else {
        off - 1
    }
}

/// Separator-ownership rule, end of the byte range a delete removes.
pub open spec fn removal_byte_end(ns: Seq<Node>, i: int, off: int) -> int {
    let kl = ns[i].byte_length as int;
    let vc = ns[i + 1].descendant_count as int;
    let vl = ns[i + 1].byte_length as int;
    if i + 2 + vc == ns.len() {
        off + kl + 1 + vl
    } else {
        off + kl + 1 + vl + 1
    }
}

/// The node array and buffer after deleting the pair located at `(i, off)`,
/// root bookkeeping re-established.
pub open spec fn without_pair(ns: Seq<Node>, bs: Seq<u8>, i: int, off: int) -> (
    Seq<Node>,
    Seq<u8>,
) {
    let vc = ns[i + 1].descendant_count as int;
    let new_ns = splice_out(ns, i, i + 2 + vc);
    let new_bs = splice_out(bs, removal_byte_start(ns, i, off), removal_byte_end(ns, i, off));
    (
        new_ns.update(
            0,
            (Node {
                descendant_count: (new_ns.len() - 1) as u32,
                byte_length: new_bs.len() as u32,
            }),
        ),
        new_bs,
    )
}

/// The value of the pair located at `(i, off)`, extracted as an independent
/// (node array, buffer) pair; the key is discarded.
pub open spec fn extracted_value(ns: Seq<Node>, bs: Seq<u8>, i: int, off: int) -> (
    Seq<Node>,
    Seq<u8>,
) {
    let kl = ns[i].byte_length as int;
    let vc = ns[i + 1].descendant_count as int;
    let vl = ns[i + 1].byte_length as int;
    (ns.subrange(i + 1, i + 2 + vc), bs.subrange(off + kl + 1, off + kl + 1 + vl))
}

/// The node a fresh key contributes: a string leaf whose span is the key
/// plus its two quotes.
pub open spec fn key_node(key: Seq<u8>) -> Node {
    Node { descendant_count: 0, byte_length: (key.len() + 2) as u32 }
}

/// The bytes a fresh pair contributes: the quoted key, the colon, and the
/// value's span.
pub open spec fn pair_bytes(key: Seq<u8>, vbs: Seq<u8>) -> Seq<u8> {
    seq![QUOTE] + key + seq![QUOTE, COLON] + vbs
}

/// The comma an insertion owes: one when the object already has members,
/// none when it is empty.
pub open spec fn comma_seq(present: bool) -> Seq<u8> {
    if present {
        seq![COMMA]
    } else {
        Seq::<u8>::empty()
    }
}

/// The node array and buffer after appending the pair `key`: `value` at the
/// end of an object, comma owed before the new pair when the object was
/// non-empty, root bookkeeping re-established.
pub open spec fn appended(
    ns: Seq<Node>,
    bs: Seq<u8>,
    key: Seq<u8>,
    vns: Seq<Node>,
    vbs: Seq<u8>,
) -> (Seq<Node>, Seq<u8>) {
    let new_bs = bs.subrange(0, bs.len() - 1) + comma_seq(ns.len() > 1) + pair_bytes(key, vbs)
        + seq![RBRACE];
    let new_ns0 = ns + seq![key_node(key)] + vns;
    (
        new_ns0.update(
            0,
            (Node {
                descendant_count: (new_ns0.len() - 1) as u32,
                byte_length: new_bs.len() as u32,
            }),
        ),
        new_bs,
    )
}

/// The node array and buffer after inserting the pair `key`: `value` right
/// after the opening brace, comma owed after the new pair when the object
/// was non-empty, root bookkeeping re-established.
pub open spec fn prepended(
    ns: Seq<Node>,
    bs: Seq<u8>,
    key: Seq<u8>,
    vns: Seq<Node>,
    vbs: Seq<u8>,
) -> (Seq<Node>, Seq<u8>) {
    let new_bs = seq![LBRACE] + pair_bytes(key, vbs) + comma_seq(ns.len() > 1) + bs.skip(1);
    let new_ns0 = seq![ns[0], key_node(key)] + vns + ns.skip(1);
    (
        new_ns0.update(
            0,
            (Node {
                descendant_count: (new_ns0.len() - 1) as u32,
                byte_length: new_bs.len() as u32,
            }),
        ),
        new_bs,
    )
}

pub proof fn lemma_skip_skip<A>(s: Seq<A>, a: int, b: int)
    requires
        0 <= a,
        0 <= b,
        a + b <= s.len(),
    ensures
        s.skip(a).skip(b) == s.skip(a + b),
{
    assert(s.skip(a).skip(b) =~= s.skip(a + b));
}

/// A well-formed member region always holds at least its closing brace.
pub proof fn lemma_members_bytes_nonempty(ns: Seq<Node>, bs: Seq<u8>)
    requires
        members_wf(ns, bs),
    ensures
        bs.len() >= 1,
{
}

/// Everything the located pair's surroundings are known to satisfy, read
/// off the member-region invariant along the scan.
pub proof fn lemma_find_pair_facts(ns: Seq<Node>, bs: Seq<u8>, key: Seq<u8>, i: int, off: int)
    requires
        members_wf(ns, bs),
        find_pair(ns, bs, key) == Some((i, off)),
    ensures
        ({
            let kl = ns[i].byte_length as int;
            let vc = ns[i + 1].descendant_count as int;
            let vl = ns[i + 1].byte_length as int;
            &&& 0 <= i && i + 2 + vc <= ns.len()
            &&& 0 <= off && off + kl + 1 + vl + 1 <= bs.len()
            &&& ns[i].descendant_count == 0
            &&& kl >= 2
            &&& key.len() == kl - 2
            &&& bs.subrange(off + 1, off + kl - 1) == key
            &&& bs[off] == QUOTE
            &&& bs[off + kl - 1] == QUOTE
            &&& bs[off + kl] == COLON
            &&& value_wf(
                ns.subrange(i + 1, i + 2 + vc),
                bs.subrange(off + kl + 1, off + kl + 1 + vl),
            )
            &&& (i + 2 + vc == ns.len() <==> off + kl + 1 + vl + 1 == bs.len())
            &&& (i + 2 + vc == ns.len() ==> bs[off + kl + 1 + vl] == RBRACE)
            &&& (i + 2 + vc < ns.len() ==> bs[off + kl + 1 + vl] == COMMA)
            &&& (i == 0 <==> off == 0)
            &&& members_wf(ns.skip(i), bs.skip(off))
        }),
    decreases ns.len(),
{
    let kl0 = ns[0].byte_length as int;
    let vc0 = ns[1].descendant_count as int;
    let vl0 = ns[1].byte_length as int;
    if kl0 >= 2 && key.len() == kl0 - 2 && bs.subrange(1, kl0 - 1) == key {
        assert(i == 0 && off == 0);
        assert(ns.skip(0) =~= ns);
        assert(bs.skip(0) =~= bs);
        assert(bs.subrange(off + 1, off + kl0 - 1) == key);
        assert(value_wf(ns.subrange(1, 2 + vc0), bs.subrange(kl0 + 1, kl0 + 1 + vl0)));
        if ns.len() > 2 + vc0 {
            lemma_members_bytes_nonempty(ns.skip(2 + vc0), bs.skip(kl0 + 1 + vl0 + 1));
        }
    } else {
        let dn = 2 + vc0;
        let db = kl0 + 1 + vl0 + 1;
        let tn = ns.skip(dn);
        let tb = bs.skip(db);
        assert(ns.len() > dn) by {
            if ns.len() == dn {
                assert(tn.len() < 2);
                assert(find_pair(ns, bs, key) is None);
            }
        }
        assert(members_wf(tn, tb));
        assert(find_pair(tn, tb, key) == Some((i - dn, off - db)));
        lemma_find_pair_facts(tn, tb, key, i - dn, off - db);
        let kl = ns[i].byte_length as int;
        let vc = ns[i + 1].descendant_count as int;
        let vl = ns[i + 1].byte_length as int;
        assert(tn[i - dn] == ns[i]);
        assert(tn[i - dn + 1] == ns[i + 1]);
        assert(bs.subrange(off + 1, off + kl - 1) =~= tb.subrange(off - db + 1, off - db + kl - 1));
        assert(bs.subrange(off + kl + 1, off + kl + 1 + vl) =~= tb.subrange(
            off - db + kl + 1,
            off - db + kl + 1 + vl,
        ));
        assert(ns.subrange(i + 1, i + 2 + vc) =~= tn.subrange(i - dn + 1, i - dn + 2 + vc));
        lemma_skip_skip(ns, dn, i - dn);
        lemma_skip_skip(bs, db, off - db);
        assert(members_wf(ns.skip(i), bs.skip(off)));
    }
}

/// Deleting a pair that is not the last member, together with the comma
/// that follows it, keeps the member region well-formed.
#[verifier::rlimit(50)]
proof fn lemma_remove_region_mid(ns: Seq<Node>, bs: Seq<u8>, key: Seq<u8>, i: int, off: int)
    requires
        members_wf(ns, bs),
        find_pair(ns, bs, key) == Some((i, off)),
        i + 2 + ns[i + 1].descendant_count < ns.len(),
    ensures
        members_wf(
            splice_out(ns, i, i + 2 + ns[i + 1].descendant_count),
            splice_out(
                bs,
                off,
                off + ns[i].byte_length + 1 + ns[i + 1].byte_length + 1,
            ),
        ),
    decreases ns.len(),
{
    lemma_find_pair_facts(ns, bs, key, i, off);
    let kl = ns[i].byte_length as int;
    let vc = ns[i + 1].descendant_count as int;
    let vl = ns[i + 1].byte_length as int;
    let new_ns = splice_out(ns, i, i + 2 + vc);
    let new_bs = splice_out(bs, off, off + kl + 1 + vl + 1);
    if i == 0 {
        assert(new_ns =~= ns.skip(2 + vc));
        assert(new_bs =~= bs.skip(kl + 1 + vl + 1));
    } else {
        let kl0 = ns[0].byte_length as int;
        let vc0 = ns[1].descendant_count as int;
        let vl0 = ns[1].byte_length as int;
        let dn = 2 + vc0;
        let db = kl0 + 1 + vl0 + 1;
        let tn = ns.skip(dn);
        let tb = bs.skip(db);
        assert(find_pair(tn, tb, key) == Some((i - dn, off - db)));
        lemma_find_pair_facts(tn, tb, key, i - dn, off - db);
        lemma_remove_region_mid(tn, tb, key, i - dn, off - db);
        let new_tn = splice_out(tn, i - dn, i - dn + 2 + vc);
        let new_tb = splice_out(tb, off - db, off - db + kl + 1 + vl + 1);
        assert(new_ns.skip(dn) =~= new_tn);
        assert(new_bs.skip(db) =~= new_tb);
        assert(new_ns[0] == ns[0]);
        assert(new_ns[1] == ns[1]);
        assert(new_ns.subrange(1, 2 + vc0) =~= ns.subrange(1, 2 + vc0));
        assert(new_bs.subrange(kl0 + 1, kl0 + 1 + vl0) =~= bs.subrange(kl0 + 1, kl0 + 1 + vl0));
        assert(new_bs[kl0] == bs[kl0]);
        assert(new_bs[kl0 - 1] == bs[kl0 - 1]);
        assert(new_bs[0] == bs[0]);
        assert(new_bs[kl0 + 1 + vl0] == bs[kl0 + 1 + vl0]);
        assert(new_ns.len() == ns.len() - (2 + vc));
        assert(new_ns.len() > dn);
        assert(members_wf(new_ns, new_bs));
    }
}

/// Deleting the last pair of an object of several members, together with
/// the comma that precedes it, keeps the member region well-formed.
proof fn lemma_remove_region_last(ns: Seq<Node>, bs: Seq<u8>, key: Seq<u8>, i: int, off: int)
    requires
        members_wf(ns, bs),
        find_pair(ns, bs, key) == Some((i, off)),
        i > 0,
        i + 2 + ns[i + 1].descendant_count == ns.len(),
    ensures
        members_wf(
            splice_out(ns, i, i + 2 + ns[i + 1].descendant_count),
            splice_out(bs, off - 1, off + ns[i].byte_length + 1 + ns[i + 1].byte_length),
        ),
    decreases ns.len(),
{
    lemma_find_pair_facts(ns, bs, key, i, off);
    let kl = ns[i].byte_length as int;
    let vc = ns[i + 1].descendant_count as int;
    let vl = ns[i + 1].byte_length as int;
    let kl0 = ns[0].byte_length as int;
    let vc0 = ns[1].descendant_count as int;
    let vl0 = ns[1].byte_length as int;
    let dn = 2 + vc0;
    let db = kl0 + 1 + vl0 + 1;
    let tn = ns.skip(dn);
    let tb = bs.skip(db);
    let new_ns = splice_out(ns, i, i + 2 + vc);
    let new_bs = splice_out(bs, off - 1, off + kl + 1 + vl);
    assert(find_pair(tn, tb, key) == Some((i - dn, off - db)));
    lemma_find_pair_facts(tn, tb, key, i - dn, off - db);
    assert(new_ns[0] == ns[0]);
    assert(new_ns[1] == ns[1]);
    assert(new_ns.subrange(1, 2 + vc0) =~= ns.subrange(1, 2 + vc0));
    if i == dn {
        assert(off == db);
        assert(new_ns =~= ns.subrange(0, dn));
        assert(new_bs =~= bs.subrange(0, db - 1) + bs.subrange(off + kl + 1 + vl, bs.len() as int));
        assert(new_bs.len() == db);
        assert(new_bs[kl0 + 1 + vl0] == bs[off + kl + 1 + vl]);
        assert(new_bs[kl0 + 1 + vl0] == RBRACE);
        assert(new_bs.subrange(kl0 + 1, kl0 + 1 + vl0) =~= bs.subrange(kl0 + 1, kl0 + 1 + vl0));
        assert(new_bs[kl0] == bs[kl0]);
        assert(new_bs[kl0 - 1] == bs[kl0 - 1]);
        assert(new_bs[0] == bs[0]);
        assert(new_ns.len() == 2 + vc0);
        assert(members_wf(new_ns, new_bs));
    } else {
        lemma_find_pair_facts(tn, tb, key, i - dn, off - db);
        lemma_remove_region_last(tn, tb, key, i - dn, off - db);
        let new_tn = splice_out(tn, i - dn, i - dn + 2 + vc);
        let new_tb = splice_out(tb, off - db - 1, off - db + kl + 1 + vl);
        assert(new_ns.skip(dn) =~= new_tn);
        assert(new_bs.skip(db) =~= new_tb);
        assert(new_bs.subrange(kl0 + 1, kl0 + 1 + vl0) =~= bs.subrange(kl0 + 1, kl0 + 1 + vl0));
        assert(new_bs[kl0] == bs[kl0]);
        assert(new_bs[kl0 - 1] == bs[kl0 - 1]);
        assert(new_bs[0] == bs[0]);
        assert(new_bs[kl0 + 1 + vl0] == bs[kl0 + 1 + vl0]);
        assert(new_ns.len() == ns.len() - (2 + vc));
        assert(new_ns.len() > dn);
        assert(members_wf(new_ns, new_bs));
    }
}

/// Deleting a located pair under the separator-ownership rule preserves the
/// whole value's well-formedness, and the extracted value is well-formed on
/// its own.
pub proof fn lemma_remove_preserves_wf(ns: Seq<Node>, bs: Seq<u8>, key: Seq<u8>, i: int, off: int)
    requires
        value_wf(ns, bs),
        key_location(ns, bs, key) == Some((i, off)),
    ensures
        ({
            let kl = ns[i].byte_length as int;
            let vc = ns[i + 1].descendant_count as int;
            let vl = ns[i + 1].byte_length as int;
            &&& 1 <= i && i + 2 + vc <= ns.len()
            &&& 1 <= off && off + kl + 1 + vl + 1 <= bs.len()
            &&& ns[i].descendant_count == 0
            &&& kl >= 2
            &&& key.len() == kl - 2
            &&& 1 <= removal_byte_start(ns, i, off)
            &&& removal_byte_start(ns, i, off) <= removal_byte_end(ns, i, off)
            &&& removal_byte_end(ns, i, off) <= bs.len()
            &&& value_wf(without_pair(ns, bs, i, off).0, without_pair(ns, bs, i, off).1)
            &&& value_wf(extracted_value(ns, bs, i, off).0, extracted_value(ns, bs, i, off).1)
        }),
{
    let mn = ns.skip(1);
    let mb = bs.skip(1);
    assert(bs[0] == LBRACE);
    assert(members_wf(mn, mb));
    assert(find_pair(mn, mb, key) == Some((i - 1, off - 1)));
    lemma_find_pair_facts(mn, mb, key, i - 1, off - 1);
    let kl = ns[i].byte_length as int;
    let vc = ns[i + 1].descendant_count as int;
    let vl = ns[i + 1].byte_length as int;
    assert(mn[i - 1] == ns[i]);
    assert(mn[i] == ns[i + 1]);
    let s = removal_byte_start(ns, i, off);
    let e = removal_byte_end(ns, i, off);
    let new_ns0 = splice_out(ns, i, i + 2 + vc);
    let new_bs = splice_out(bs, s, e);
    let root = (Node {
        descendant_count: (new_ns0.len() - 1) as u32,
        byte_length: new_bs.len() as u32,
    });
    let new_ns = new_ns0.update(0, root);
    assert(extracted_value(ns, bs, i, off).0 =~= mn.subrange(i, i + 1 + vc));
    assert(extracted_value(ns, bs, i, off).1 =~= mb.subrange(
        off - 1 + kl + 1,
        off - 1 + kl + 1 + vl,
    ));
    assert(value_wf(extracted_value(ns, bs, i, off).0, extracted_value(ns, bs, i, off).1));
    if i == 1 && i + 2 + vc == ns.len() {
        // sole member: no comma is touched and the braces stay
        assert(new_bs =~= bs.subrange(0, 1) + bs.subrange(off + kl + 1 + vl, bs.len() as int));
        assert(new_bs.len() == 2);
        assert(new_bs[0] == LBRACE);
        assert(new_bs[1] == RBRACE);
        assert(new_ns.len() == 1);
        assert(new_ns.skip(1) =~= Seq::<Node>::empty());
        assert(new_bs.skip(1) =~= seq![RBRACE]);
        assert(members_wf(new_ns.skip(1), new_bs.skip(1)));
        assert(value_wf(new_ns, new_bs));
    } else if i + 2 + vc < ns.len() {
        lemma_remove_region_mid(mn, mb, key, i - 1, off - 1);
        let new_mn = splice_out(mn, i - 1, i - 1 + 2 + vc);
        let new_mb = splice_out(mb, off - 1, off - 1 + kl + 1 + vl + 1);
        assert(new_ns.skip(1) =~= new_mn);
        assert(new_bs.skip(1) =~= new_mb);
        assert(new_bs[0] == LBRACE);
        assert(value_wf(new_ns, new_bs));
    } else {
        lemma_remove_region_last(mn, mb, key, i - 1, off - 1);
        let new_mn = splice_out(mn, i - 1, i - 1 + 2 + vc);
        let new_mb = splice_out(mb, off - 2, off - 1 + kl + 1 + vl);
        assert(new_ns.skip(1) =~= new_mn);
        assert(new_bs.skip(1) =~= new_mb);
        assert(new_bs[0] == LBRACE);
        assert(value_wf(new_ns, new_bs));
    }
}

/// A member region holding exactly one fresh pair is well-formed.
proof fn lemma_single_pair_region(key: Seq<u8>, vns: Seq<Node>, vbs: Seq<u8>)
    requires
        value_wf(vns, vbs),
        key.len() + 2 <= u32::MAX,
    ensures
        members_wf(seq![key_node(key)] + vns, pair_bytes(key, vbs) + seq![RBRACE]),
{
    let ns = seq![key_node(key)] + vns;
    let bs = pair_bytes(key, vbs) + seq![RBRACE];
    let kl: int = key.len() as int + 2;
    let vc = vns[0].descendant_count as int;
    let vl = vns[0].byte_length as int;
    assert(ns[0] == key_node(key));
    assert(ns[1] == vns[0]);
    assert(bs.len() == kl + 1 + vl + 1);
    assert(bs[0] == QUOTE);
    assert(bs[kl - 1] == QUOTE);
    assert(bs[kl as int] == COLON);
    assert(bs[kl + 1 + vl] == RBRACE);
    assert(ns.subrange(1, 2 + vc) =~= vns);
    assert(bs.subrange(kl + 1, kl + 1 + vl) =~= vbs);
    assert(members_wf(ns, bs));
}

/// Appending a fresh pair at the end of a member region, with the comma it
/// owes, keeps the region well-formed.
proof fn lemma_members_append(
    mns: Seq<Node>,
    mbs: Seq<u8>,
    key: Seq<u8>,
    vns: Seq<Node>,
    vbs: Seq<u8>,
)
    requires
        members_wf(mns, mbs),
        value_wf(vns, vbs),
        key.len() + 2 <= u32::MAX,
    ensures
        members_wf(
            mns + seq![key_node(key)] + vns,
            mbs.subrange(0, mbs.len() - 1) + comma_seq(mns.len() > 0) + pair_bytes(key, vbs)
                + seq![RBRACE],
        ),
    decreases mns.len(),
{
    let new_ns = mns + seq![key_node(key)] + vns;
    let new_bs = mbs.subrange(0, mbs.len() - 1) + comma_seq(mns.len() > 0) + pair_bytes(key, vbs)
        + seq![RBRACE];
    if mns.len() == 0 {
        lemma_single_pair_region(key, vns, vbs);
        assert(new_ns =~= seq![key_node(key)] + vns);
        assert(new_bs =~= pair_bytes(key, vbs) + seq![RBRACE]);
    } else {
        let kl0 = mns[0].byte_length as int;
        let vc0 = mns[1].descendant_count as int;
        let vl0 = mns[1].byte_length as int;
        let dn = 2 + vc0;
        let db = kl0 + 1 + vl0 + 1;
        assert(new_ns[0] == mns[0]);
        assert(new_ns[1] == mns[1]);
        assert(new_ns.subrange(1, 2 + vc0) =~= mns.subrange(1, 2 + vc0));
        assert(new_bs.subrange(kl0 + 1, kl0 + 1 + vl0) =~= mbs.subrange(kl0 + 1, kl0 + 1 + vl0));
        assert(new_bs[0] == mbs[0]);
        assert(new_bs[kl0 - 1] == mbs[kl0 - 1]);
        assert(new_bs[kl0] == mbs[kl0]);
        if mns.len() == dn {
            // the old last pair: its closing brace gives way to the owed comma
            lemma_single_pair_region(key, vns, vbs);
            assert(mbs.len() == db);
            assert(new_bs[kl0 + 1 + vl0] == COMMA);
            assert(new_ns.skip(dn) =~= seq![key_node(key)] + vns);
            assert(new_bs.skip(db) =~= pair_bytes(key, vbs) + seq![RBRACE]);
            assert(new_ns.len() > dn);
            assert(members_wf(new_ns, new_bs));
        } else {
            lemma_members_bytes_nonempty(mns.skip(dn), mbs.skip(db));
            lemma_members_append(mns.skip(dn), mbs.skip(db), key, vns, vbs);
            assert(new_bs[kl0 + 1 + vl0] == mbs[kl0 + 1 + vl0]);
            assert(new_ns.skip(dn) =~= mns.skip(dn) + seq![key_node(key)] + vns);
            assert(new_bs.skip(db) =~= mbs.skip(db).subrange(0, mbs.skip(db).len() - 1)
                + comma_seq(mns.skip(dn).len() > 0) + pair_bytes(key, vbs) + seq![RBRACE]);
            assert(new_ns.len() > dn);
            assert(members_wf(new_ns, new_bs));
        }
    }
}

/// Inserting a fresh pair at the front of a member region, with the comma
/// it owes, keeps the region well-formed.
proof fn lemma_members_prepend(
    mns: Seq<Node>,
    mbs: Seq<u8>,
    key: Seq<u8>,
    vns: Seq<Node>,
    vbs: Seq<u8>,
)
    requires
        members_wf(mns, mbs),
        value_wf(vns, vbs),
        key.len() + 2 <= u32::MAX,
    ensures
        members_wf(
            seq![key_node(key)] + vns + mns,
            pair_bytes(key, vbs) + comma_seq(mns.len() > 0) + mbs,
        ),
{
    let new_ns = seq![key_node(key)] + vns + mns;
    let new_bs = pair_bytes(key, vbs) + comma_seq(mns.len() > 0) + mbs;
    let kl: int = key.len() as int + 2;
    let vc = vns[0].descendant_count as int;
    let vl = vns[0].byte_length as int;
    if mns.len() == 0 {
        lemma_single_pair_region(key, vns, vbs);
        assert(new_ns =~= seq![key_node(key)] + vns);
        assert(new_bs =~= pair_bytes(key, vbs) + seq![RBRACE]);
    } else {
        assert(new_ns[0] == key_node(key));
        assert(new_ns[1] == vns[0]);
        assert(new_bs[0] == QUOTE);
        assert(new_bs[kl - 1] == QUOTE);
        assert(new_bs[kl as int] == COLON);
        assert(new_bs[kl + 1 + vl] == COMMA);
        assert(new_ns.subrange(1, 2 + vc) =~= vns);
        assert(new_bs.subrange(kl + 1, kl + 1 + vl) =~= vbs);
        assert(new_ns.len() > 2 + vc);
        assert(new_ns.skip(2 + vc) =~= mns);
        assert(new_bs.skip(kl + 1 + vl + 1) =~= mbs);
        assert(members_wf(new_ns, new_bs));
    }
}

/// Appending a fresh pair to an object value preserves well-formedness.
pub proof fn lemma_add_key_wf(ns: Seq<Node>, bs: Seq<u8>, key: Seq<u8>, vns: Seq<Node>, vbs: Seq<u8>)
    requires
        value_wf(ns, bs),
        bs[0] == LBRACE,
        value_wf(vns, vbs),
        bs.len() + key.len() + vbs.len() + 4 <= u32::MAX,
        ns.len() + vns.len() <= u32::MAX,
    ensures
        value_wf(appended(ns, bs, key, vns, vbs).0, appended(ns, bs, key, vns, vbs).1),
        appended(ns, bs, key, vns, vbs).1[0] == LBRACE,
{
    let mn = ns.skip(1);
    let mb = bs.skip(1);
    lemma_members_append(mn, mb, key, vns, vbs);
    let (new_ns, new_bs) = appended(ns, bs, key, vns, vbs);
    assert(new_bs[0] == LBRACE);
    assert(new_ns.skip(1) =~= mn + seq![key_node(key)] + vns);
    assert(new_bs.skip(1) =~= mb.subrange(0, mb.len() - 1) + comma_seq(mn.len() > 0)
        + pair_bytes(key, vbs) + seq![RBRACE]);
    assert(value_wf(new_ns, new_bs));
}

/// Inserting a fresh pair at the front of an object value preserves
/// well-formedness.
pub proof fn lemma_prepend_key_wf(
    ns: Seq<Node>,
    bs: Seq<u8>,
    key: Seq<u8>,
    vns: Seq<Node>,
    vbs: Seq<u8>,
)
    requires
        value_wf(ns, bs),
        bs[0] == LBRACE,
        value_wf(vns, vbs),
        bs.len() + key.len() + vbs.len() + 4 <= u32::MAX,
        ns.len() + vns.len() <= u32::MAX,
    ensures
        value_wf(prepended(ns, bs, key, vns, vbs).0, prepended(ns, bs, key, vns, vbs).1),
        prepended(ns, bs, key, vns, vbs).1[0] == LBRACE,
{
    let mn = ns.skip(1);
    let mb = bs.skip(1);
    lemma_members_prepend(mn, mb, key, vns, vbs);
    let (new_ns, new_bs) = prepended(ns, bs, key, vns, vbs);
    assert(new_bs[0] == LBRACE);
    assert(new_ns.skip(1) =~= seq![key_node(key)] + vns + mn);
    assert(new_bs.skip(1) =~= pair_bytes(key, vbs) + comma_seq(mn.len() > 0) + mb);
    assert(value_wf(new_ns, new_bs));
}

} // verus!
