use vstd::prelude::*;
use crate::splice::push_all_at;
use crate::lex::{compact, minify_from, lemma_minify_len, LexError};
use crate::parse::{parse, parsed_nodes, ParseError};
use vstd::slice::{slice_subrange, slice_to_vec};
use crate::node::{
    Node, value_wf, members_wf, items_wf, QUOTE, COLON, COMMA, LBRACE, RBRACE, LBRACKET, RBRACKET,
    LIT_T, LIT_F, LIT_N, LIT_R, LIT_U, LIT_E, LIT_A, LIT_L, LIT_S,
};

verus! {

broadcast use
    vstd::seq::axiom_seq_index_decreases,
    vstd::std_specs::vec::axiom_vec_index_decreases,
    vstd::std_specs::vec::axiom_vec_decreases_to_view,
;

/// A materialized, tagged tree built from the flat encoding. String and
/// number leaves keep their original textual spans verbatim (quotes and
/// escapes included). Each container carries a cached copy of its original
/// byte span, used by `to_text` instead of re-serializing; a container
/// built by hand carries none.
pub enum JsonNode {
    Object(Vec<(Vec<u8>, JsonNode)>, Option<Vec<u8>>),
    Array(Vec<JsonNode>, Option<Vec<u8>>),
    Str(Vec<u8>),
    Num(Vec<u8>),
    Bool(bool),
    Null,
}

/// The canonical serialization of a tree: members joined with commas as
/// `key:value` inside braces, items joined with commas inside brackets,
/// leaf spans verbatim.
pub open spec fn ser(t: JsonNode) -> Seq<u8>
    decreases t,
{
    match t {
        JsonNode::Object(ms, c) => seq![LBRACE] + ser_members(ms@) + seq![RBRACE],
        JsonNode::Array(vs, c) => seq![LBRACKET] + ser_items(vs@) + seq![RBRACKET],
        JsonNode::Str(s) => s@,
        JsonNode::Num(s) => s@,
        JsonNode::Bool(b) => if b {
            seq![LIT_T, LIT_R, LIT_U, LIT_E]
        } else {
            seq![LIT_F, LIT_A, LIT_L, LIT_S, LIT_E]
        },
        JsonNode::Null => seq![LIT_N, LIT_U, LIT_L, LIT_L],
    }
}

pub open spec fn ser_members(ms: Seq<(Vec<u8>, JsonNode)>) -> Seq<u8>
    decreases ms,
{
    if ms.len() == 0 {
        Seq::empty()
    } else {
        ms[0].0@ + seq![COLON] + ser(ms[0].1) + if ms.len() > 1 {
            seq![COMMA] + ser_members(ms.skip(1))
        } else {
            Seq::empty()
        }
    }
}

pub open spec fn ser_items(vs: Seq<JsonNode>) -> Seq<u8>
    decreases vs,
{
    if vs.len() == 0 {
        Seq::empty()
    } else {
        ser(vs[0]) + if vs.len() > 1 {
            seq![COMMA] + ser_items(vs.skip(1))
        } else {
            Seq::empty()
        }
    }
}

/// Every cached span in the tree equals the serialization of its own
/// subtree, so `to_text` may return it in place of re-serializing.
pub open spec fn cache_ok(t: JsonNode) -> bool
    decreases t,
{
    match t {
        JsonNode::Object(ms, c) => (match c {
            Some(cv) => cv@ == ser(t),
            None => true,
        }) && cache_ok_members(ms@),
        JsonNode::Array(vs, c) => (match c {
            Some(cv) => cv@ == ser(t),
            None => true,
        }) && cache_ok_items(vs@),
        _ => true,
    }
}

pub open spec fn cache_ok_members(ms: Seq<(Vec<u8>, JsonNode)>) -> bool
    decreases ms,
{
    if ms.len() == 0 {
        true
    } else {
        cache_ok(ms[0].1) && cache_ok_members(ms.skip(1))
    }
}

pub open spec fn cache_ok_items(vs: Seq<JsonNode>) -> bool
    decreases vs,
{
    if vs.len() == 0 {
        true
    } else {
        cache_ok(vs[0]) && cache_ok_items(vs.skip(1))
    }
}

/// The tree `t` faithfully represents the flat value (`ns`, `bs`): same
/// shape, leaves holding the exact spans, keys verbatim, and every
/// container's cache holding its own original span.
pub open spec fn represents(t: JsonNode, ns: Seq<Node>, bs: Seq<u8>) -> bool
    decreases ns.len(), 0int,
{
    if ns.len() < 1 || bs.len() < 1 {
        false
    } else if bs[0] == LBRACE {
        &&& t matches JsonNode::Object(ms, c) && (c matches Some(cv) && cv@ == bs)
            && represents_members(ms@, ns.skip(1), bs.skip(1))
    } else if bs[0] == LBRACKET {
        &&& t matches JsonNode::Array(vs, c) && (c matches Some(cv) && cv@ == bs)
            && represents_items(vs@, ns.skip(1), bs.skip(1))
    } else if bs[0] == QUOTE {
        t matches JsonNode::Str(s) && s@ == bs
    } else if bs[0] == LIT_T {
        t == JsonNode::Bool(true)
    } else if bs[0] == LIT_F {
        t == JsonNode::Bool(false)
    } else if bs[0] == LIT_N {
        t == JsonNode::Null
    } else {
        t matches JsonNode::Num(s) && s@ == bs
    }
}

pub open spec fn represents_members(
    ms: Seq<(Vec<u8>, JsonNode)>,
    ns: Seq<Node>,
    bs: Seq<u8>,
) -> bool
    decreases ns.len(), 1int,
{
    if ns.len() == 0 {
        ms.len() == 0
    } else {
        let kl = ns[0].byte_length as int;
        let vc = ns[1].descendant_count as int;
        let vl = ns[1].byte_length as int;
        &&& ms.len() >= 1
        &&& ns.len() >= 2
        &&& 2 + vc <= ns.len()
        &&& ms[0].0@ == bs.subrange(0, kl)
        &&& represents(ms[0].1, ns.subrange(1, 2 + vc), bs.subrange(kl + 1, kl + 1 + vl))
        &&& if ns.len() == 2 + vc {
            ms.len() == 1
        } else {
            represents_members(ms.skip(1), ns.skip(2 + vc), bs.skip(kl + 1 + vl + 1))
        }
    }
}

pub open spec fn represents_items(vs: Seq<JsonNode>, ns: Seq<Node>, bs: Seq<u8>) -> bool
    decreases ns.len(), 1int,
{
    if ns.len() == 0 {
        vs.len() == 0
    } else {
        let vc = ns[0].descendant_count as int;
        let vl = ns[0].byte_length as int;
        &&& vs.len() >= 1
        &&& 1 + vc <= ns.len()
        &&& represents(vs[0], ns.subrange(0, 1 + vc), bs.subrange(0, vl))
        &&& if ns.len() == 1 + vc {
            vs.len() == 1
        } else {
            represents_items(vs.skip(1), ns.skip(1 + vc), bs.skip(vl + 1))
        }
    }
}

/// Round trip: a tree that faithfully represents a well-formed flat value
/// serializes back to exactly the original minified bytes, and each cached
/// span agrees with its subtree's serialization.
pub proof fn lemma_round_trip(t: JsonNode, ns: Seq<Node>, bs: Seq<u8>)
    requires
        value_wf(ns, bs),
        represents(t, ns, bs),
    ensures
        ser(t) == bs,
        cache_ok(t),
    decreases ns.len(), 0int,
{
    if bs[0] == LBRACE {
        match t {
            JsonNode::Object(ms, c) => {
                lemma_round_trip_members(ms@, ns.skip(1), bs.skip(1));
                assert(ser(t) =~= seq![LBRACE] + (ser_members(ms@) + seq![RBRACE]));
                assert(seq![LBRACE] + bs.skip(1) =~= bs);
                assert(ser(t) =~= bs);
            },
            _ => {},
        }
    } else if bs[0] == LBRACKET {
        match t {
            JsonNode::Array(vs, c) => {
                lemma_round_trip_items(vs@, ns.skip(1), bs.skip(1));
                assert(ser(t) =~= seq![LBRACKET] + (ser_items(vs@) + seq![RBRACKET]));
                assert(seq![LBRACKET] + bs.skip(1) =~= bs);
                assert(ser(t) =~= bs);
            },
            _ => {},
        }
    } else {
        assert(ser(t) =~= bs);
    }
}

proof fn lemma_round_trip_members(ms: Seq<(Vec<u8>, JsonNode)>, ns: Seq<Node>, bs: Seq<u8>)
    requires
        members_wf(ns, bs),
        represents_members(ms, ns, bs),
    ensures
        ser_members(ms) + seq![RBRACE] == bs,
        cache_ok_members(ms),
    decreases ns.len(), 1int,
{
    if ns.len() == 0 {
        assert(ser_members(ms) + seq![RBRACE] =~= bs);
    } else {
        let kl = ns[0].byte_length as int;
        let vc = ns[1].descendant_count as int;
        let vl = ns[1].byte_length as int;
        lemma_round_trip(ms[0].1, ns.subrange(1, 2 + vc), bs.subrange(kl + 1, kl + 1 + vl));
        if ns.len() == 2 + vc {
            assert(ser_members(ms) =~= bs.subrange(0, kl) + seq![COLON] + bs.subrange(
                kl + 1,
                kl + 1 + vl,
            ));
            assert(ser_members(ms) + seq![RBRACE] =~= bs);
            assert(ms.skip(1).len() == 0);
            assert(cache_ok_members(ms.skip(1)));
            assert(cache_ok_members(ms));
        } else {
            lemma_round_trip_members(ms.skip(1), ns.skip(2 + vc), bs.skip(kl + 1 + vl + 1));
            assert(represents_members(ms.skip(1), ns.skip(2 + vc), bs.skip(kl + 1 + vl + 1)));
            assert(ms.skip(1).len() >= 1);
            assert(ms.len() >= 2);
            assert(ser_members(ms) =~= bs.subrange(0, kl) + seq![COLON] + bs.subrange(
                kl + 1,
                kl + 1 + vl,
            ) + seq![COMMA] + ser_members(ms.skip(1)));
            assert(ser_members(ms.skip(1)) + seq![RBRACE] == bs.skip(kl + 1 + vl + 1));
            assert(ser_members(ms) + seq![RBRACE] =~= bs.subrange(0, kl) + seq![COLON]
                + bs.subrange(kl + 1, kl + 1 + vl) + seq![COMMA] + (ser_members(ms.skip(1))
                + seq![RBRACE]));
            assert(bs.subrange(0, kl) + seq![COLON] + bs.subrange(kl + 1, kl + 1 + vl)
                + seq![COMMA] + bs.skip(kl + 1 + vl + 1) =~= bs);
            assert(ser_members(ms) + seq![RBRACE] =~= bs);
            assert(cache_ok_members(ms));
        }
    }
}

proof fn lemma_round_trip_items(vs: Seq<JsonNode>, ns: Seq<Node>, bs: Seq<u8>)
    requires
        items_wf(ns, bs),
        represents_items(vs, ns, bs),
    ensures
        ser_items(vs) + seq![RBRACKET] == bs,
        cache_ok_items(vs),
    decreases ns.len(), 1int,
{
    if ns.len() == 0 {
        assert(ser_items(vs) + seq![RBRACKET] =~= bs);
    } else {
        let vc = ns[0].descendant_count as int;
        let vl = ns[0].byte_length as int;
        lemma_round_trip(vs[0], ns.subrange(0, 1 + vc), bs.subrange(0, vl));
        if ns.len() == 1 + vc {
            assert(ser_items(vs) =~= bs.subrange(0, vl));
            assert(ser_items(vs) + seq![RBRACKET] =~= bs);
            assert(vs.skip(1).len() == 0);
            assert(cache_ok_items(vs.skip(1)));
            assert(cache_ok_items(vs));
        } else {
            lemma_round_trip_items(vs.skip(1), ns.skip(1 + vc), bs.skip(vl + 1));
            assert(represents_items(vs.skip(1), ns.skip(1 + vc), bs.skip(vl + 1)));
            assert(vs.skip(1).len() >= 1);
            assert(vs.len() >= 2);
            assert(ser_items(vs) =~= bs.subrange(0, vl) + seq![COMMA] + ser_items(vs.skip(1)));
            assert(ser_items(vs.skip(1)) + seq![RBRACKET] == bs.skip(vl + 1));
            assert(ser_items(vs) + seq![RBRACKET] =~= bs.subrange(0, vl) + seq![COMMA] + (
            ser_items(vs.skip(1)) + seq![RBRACKET]));
            assert(bs.subrange(0, vl) + seq![COMMA] + bs.skip(vl + 1) =~= bs);
            assert(ser_items(vs) + seq![RBRACKET] =~= bs);
            assert(cache_ok_items(vs));
        }
    }
}

/// What went wrong while building a tree from raw text: the lexical level
/// (compaction) or the structural level (parsing).
#[derive(Clone, Copy, PartialEq, Eq, Structural, Debug)]
pub enum JsonError {
    Lex(LexError),
    Parse(ParseError),
}

/// Convenience composition: compacts raw JSON text, parses the minified
/// bytes into the flat encoding, and materializes the tagged tree.
pub fn from_input(bytes: &[u8]) -> (r: Result<JsonNode, JsonError>)
    requires
        bytes@.len() <= u32::MAX,
    ensures
        match r {
            Ok(t) => {
                &&& minify_from(bytes@, 0) is Some
                &&& parsed_nodes(minify_from(bytes@, 0).unwrap()) is Some
                &&& represents(
                    t,
                    parsed_nodes(minify_from(bytes@, 0).unwrap()).unwrap(),
                    minify_from(bytes@, 0).unwrap(),
                )
                &&& cache_ok(t)
                &&& ser(t) == minify_from(bytes@, 0).unwrap()
            },
            Err(e) => match e {
                JsonError::Lex(le) => minify_from(bytes@, 0) is None,
                JsonError::Parse(pe) => minify_from(bytes@, 0) is Some && parsed_nodes(
                    minify_from(bytes@, 0).unwrap(),
                ) is None,
            },
        },
{
    let m = match compact(bytes) {
        Ok(m) => m,
        Err(e) => {
            return Err(JsonError::Lex(e));
        },
    };
    proof {
        lemma_minify_len(bytes@, 0);
    }
    let ns = match parse(m.as_slice()) {
        Ok(ns) => ns,
        Err(e) => {
            return Err(JsonError::Parse(e));
        },
    };
    let t = materialize(ns.as_slice(), m.as_slice());
    Ok(t)
}

proof fn lemma_cache_ok_members_index(ms: Seq<(Vec<u8>, JsonNode)>, i: int)
    requires
        cache_ok_members(ms),
        0 <= i < ms.len(),
    ensures
        cache_ok(ms[i].1),
    decreases i,
{
    if i > 0 {
        lemma_cache_ok_members_index(ms.skip(1), i - 1);
        assert(ms.skip(1)[i - 1] == ms[i]);
    }
}

proof fn lemma_cache_ok_items_index(vs: Seq<JsonNode>, i: int)
    requires
        cache_ok_items(vs),
        0 <= i < vs.len(),
    ensures
        cache_ok(vs[i]),
    decreases i,
{
    if i > 0 {
        lemma_cache_ok_items_index(vs.skip(1), i - 1);
        assert(vs.skip(1)[i - 1] == vs[i]);
    }
}

/// Builds the tagged tree for one well-formed flat value, dispatching on
/// the first byte of its span; each container caches its original span for
/// later serialization.
pub fn materialize(nodes: &[Node], text: &[u8]) -> (r: JsonNode)
    requires
        value_wf(nodes@, text@),
    ensures
        represents(r, nodes@, text@),
        cache_ok(r),
        ser(r) == text@,
    decreases nodes@.len(), 0int,
{
    let b = text[0];
    let r = if b == LBRACE {
        let ms = materialize_members(
            slice_subrange(nodes, 1, nodes.len()),
            slice_subrange(text, 1, text.len()),
        );
        JsonNode::Object(ms, Some(slice_to_vec(text)))
    } else if b == LBRACKET {
        let vs = materialize_items(
            slice_subrange(nodes, 1, nodes.len()),
            slice_subrange(text, 1, text.len()),
        );
        JsonNode::Array(vs, Some(slice_to_vec(text)))
    } else if b == QUOTE {
        JsonNode::Str(slice_to_vec(text))
    } else if b == LIT_T {
        JsonNode::Bool(true)
    } else if b == LIT_F {
        JsonNode::Bool(false)
    } else if b == LIT_N {
        JsonNode::Null
    } else {
        JsonNode::Num(slice_to_vec(text))
    };
    proof {
        assert(represents(r, nodes@, text@));
        lemma_round_trip(r, nodes@, text@);
    }
    r
}

fn materialize_members(nodes: &[Node], text: &[u8]) -> (r: Vec<(Vec<u8>, JsonNode)>)
    requires
        members_wf(nodes@, text@),
    ensures
        represents_members(r@, nodes@, text@),
    decreases nodes@.len(), 1int,
{
    let mut out: Vec<(Vec<u8>, JsonNode)> = Vec::new();
    if nodes.len() == 0 {
        return out;
    }
    let n = text.len();
    let kn = nodes[0];
    let vn = nodes[1];
    let kl = kn.byte_length as usize;
    let vc = vn.descendant_count as usize;
    let vl = vn.byte_length as usize;
    proof {
        assert(kl + 1 + vl + 1 <= n && 2 + vc <= nodes@.len());
    }
    let key = slice_to_vec(slice_subrange(text, 0, kl));
    let value = materialize(
        slice_subrange(nodes, 1, 2 + vc),
        slice_subrange(text, kl + 1, kl + 1 + vl),
    );
    let ghost gkey = key@;
    let ghost gvalue = value;
    out.push((key, value));
    if nodes.len() > 2 + vc {
        let mut rest = materialize_members(
            slice_subrange(nodes, 2 + vc, nodes.len()),
            slice_subrange(text, kl + 1 + vl + 1, text.len()),
        );
        let ghost grest = rest@;
        out.append(&mut rest);
        proof {
            assert(out@[0].0@ == gkey && out@[0].1 == gvalue);
            assert(out@.skip(1) =~= grest);
            assert(represents_members(out@, nodes@, text@));
        }
    } else {
        proof {
            assert(out@.len() == 1);
            assert(out@[0].0@ == gkey && out@[0].1 == gvalue);
            assert(represents_members(out@, nodes@, text@));
        }
    }
    out
}

fn materialize_items(nodes: &[Node], text: &[u8]) -> (r: Vec<JsonNode>)
    requires
        items_wf(nodes@, text@),
    ensures
        represents_items(r@, nodes@, text@),
    decreases nodes@.len(), 1int,
{
    let mut out: Vec<JsonNode> = Vec::new();
    if nodes.len() == 0 {
        return out;
    }
    let n = text.len();
    let vn = nodes[0];
    let vc = vn.descendant_count as usize;
    let vl = vn.byte_length as usize;
    proof {
        assert(vl + 1 <= n && 1 + vc <= nodes@.len());
    }
    let value = materialize(slice_subrange(nodes, 0, 1 + vc), slice_subrange(text, 0, vl));
    let ghost gvalue = value;
    out.push(value);
    if nodes.len() > 1 + vc {
        let mut rest = materialize_items(
            slice_subrange(nodes, 1 + vc, nodes.len()),
            slice_subrange(text, vl + 1, text.len()),
        );
        let ghost grest = rest@;
        out.append(&mut rest);
        proof {
            assert(out@[0] == gvalue);
            assert(out@.skip(1) =~= grest);
            assert(represents_items(out@, nodes@, text@));
        }
    } else {
        proof {
            assert(out@.len() == 1);
            assert(out@[0] == gvalue);
            assert(represents_items(out@, nodes@, text@));
        }
    }
    out
}

impl JsonNode {
    /// Serializes the tree: the cached original span when one is present,
    /// otherwise a reconstruction from the current members or items,
    /// joined with commas and wrapped in the container's brackets.
    pub fn to_text(&self) -> (r: Vec<u8>)
        requires
            cache_ok(*self),
        ensures
            r@ == ser(*self),
        decreases *self,
    {
        match self {
            JsonNode::Object(ms, c) => {
                match c {
                    Some(cv) => slice_to_vec(cv.as_slice()),
                    None => {
                        let mut out: Vec<u8> = Vec::new();
                        out.push(LBRACE);
                        proof {
                            assert(ms@.skip(0) =~= ms@);
                            assert(out@ + ser_members(ms@) + seq![RBRACE] =~= seq![LBRACE]
                                + ser_members(ms@) + seq![RBRACE]);
                        }
                        let mut i: usize = 0;
                        while i < ms.len()
                            invariant
                                i <= ms@.len(),
                                cache_ok_members(ms@),
                                *self == JsonNode::Object(*ms, None::<Vec<u8>>),
                                out@ + ser_members(ms@.skip(i as int)) + seq![RBRACE] == ser(
                                    *self,
                                ),
                            decreases ms@.len() - i,
                        {
                            proof {
                                lemma_cache_ok_members_index(ms@, i as int);
                                assert(ms@.skip(i as int)[0] == ms@[i as int]);
                                assert(ms@.skip(i as int).skip(1) =~= ms@.skip(i + 1));
                            }
                            let ghost out0 = out@;
                            let len = out.len();
                            push_all_at(&mut out, len, ms[i].0.as_slice());
                            out.push(COLON);
                            let sub = ms[i].1.to_text();
                            let len = out.len();
                            push_all_at(&mut out, len, sub.as_slice());
                            if i + 1 < ms.len() {
                                out.push(COMMA);
                                proof {
                                    assert(out@ =~= out0 + (ms@[i as int].0@ + seq![COLON] + ser(
                                        ms@[i as int].1,
                                    ) + seq![COMMA]));
                                    assert(out0 + ser_members(ms@.skip(i as int)) =~= out@
                                        + ser_members(ms@.skip(i + 1)));
                                }
                            } else {
                                proof {
                                    assert(ms@.skip(i as int).len() == 1);
                                    assert(out@ =~= out0 + (ms@[i as int].0@ + seq![COLON] + ser(
                                        ms@[i as int].1,
                                    )));
                                    assert(ser_members(ms@.skip(i + 1)) =~= Seq::<u8>::empty());
                                    assert(out0 + ser_members(ms@.skip(i as int)) =~= out@
                                        + ser_members(ms@.skip(i + 1)));
                                }
                            }
                            i = i + 1;
                        }
                        out.push(RBRACE);
                        proof {
                            assert(ser_members(ms@.skip(ms@.len() as int)) =~= Seq::<u8>::empty());
                            assert(out@ =~= ser(*self));
                        }
                        out
                    },
                }
            },
            JsonNode::Array(vs, c) => {
                match c {
                    Some(cv) => slice_to_vec(cv.as_slice()),
                    None => {
                        let mut out: Vec<u8> = Vec::new();
                        out.push(LBRACKET);
                        proof {
                            assert(vs@.skip(0) =~= vs@);
                            assert(out@ + ser_items(vs@) + seq![RBRACKET] =~= seq![LBRACKET]
                                + ser_items(vs@) + seq![RBRACKET]);
                        }
                        let mut i: usize = 0;
                        while i < vs.len()
                            invariant
                                i <= vs@.len(),
                                cache_ok_items(vs@),
                                *self == JsonNode::Array(*vs, None::<Vec<u8>>),
                                out@ + ser_items(vs@.skip(i as int)) + seq![RBRACKET] == ser(
                                    *self,
                                ),
                            decreases vs@.len() - i,
                        {
                            proof {
                                lemma_cache_ok_items_index(vs@, i as int);
                                assert(vs@.skip(i as int)[0] == vs@[i as int]);
                                assert(vs@.skip(i as int).skip(1) =~= vs@.skip(i + 1));
                            }
                            let ghost out0 = out@;
                            let sub = vs[i].to_text();
                            let len = out.len();
                            push_all_at(&mut out, len, sub.as_slice());
                            if i + 1 < vs.len() {
                                out.push(COMMA);
                                proof {
                                    assert(out@ =~= out0 + (ser(vs@[i as int]) + seq![COMMA]));
                                    assert(out0 + ser_items(vs@.skip(i as int)) =~= out@
                                        + ser_items(vs@.skip(i + 1)));
                                }
                            } else {
                                proof {
                                    assert(vs@.skip(i as int).len() == 1);
                                    assert(out@ =~= out0 + ser(vs@[i as int]));
                                    assert(ser_items(vs@.skip(i + 1)) =~= Seq::<u8>::empty());
                                    assert(out0 + ser_items(vs@.skip(i as int)) =~= out@
                                        + ser_items(vs@.skip(i + 1)));
                                }
                            }
                            i = i + 1;
                        }
                        out.push(RBRACKET);
                        proof {
                            assert(ser_items(vs@.skip(vs@.len() as int)) =~= Seq::<u8>::empty());
                            assert(out@ =~= ser(*self));
                        }
                        out
                    },
                }
            },
            JsonNode::Str(s) => slice_to_vec(s.as_slice()),
            JsonNode::Num(s) => slice_to_vec(s.as_slice()),
            JsonNode::Bool(b) => {
                let mut out: Vec<u8> = Vec::new();
                if *b {
                    out.push(LIT_T);
                    out.push(LIT_R);
                    out.push(LIT_U);
                    out.push(LIT_E);
                } else {
                    out.push(LIT_F);
                    out.push(LIT_A);
                    out.push(LIT_L);
                    out.push(LIT_S);
                    out.push(LIT_E);
                }
                proof {
                    assert(out@ =~= ser(*self));
                }
                out
            },
            JsonNode::Null => {
                let mut out: Vec<u8> = Vec::new();
                out.push(LIT_N);
                out.push(LIT_U);
                out.push(LIT_L);
                out.push(LIT_L);
                proof {
                    assert(out@ =~= ser(*self));
                }
                out
            },
        }
    }
}

} // verus!
