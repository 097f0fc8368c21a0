use vstd::prelude::*;
use vstd::pervasive::VecAdditionalExecFns;
use crate::node::{
    Node, value_wf, members_wf, items_wf, leaf_wf, QUOTE, COLON, COMMA, LBRACE, RBRACE, LBRACKET,
    RBRACKET, MINUS, DIGIT_0, DIGIT_9, LIT_T, LIT_F, LIT_N, LIT_R, LIT_U, LIT_E, LIT_A, LIT_L,
    LIT_S,
};
use crate::lex::{string_end, scan_string, is_ws, is_ws_b, lemma_string_end_props};

verus! {

/// Structural failure while parsing minified bytes: a token out of place,
/// a missing delimiter, trailing input, or insignificant whitespace that
/// the minifier should have removed.
#[derive(Clone, Copy, PartialEq, Eq, Structural, Debug)]
pub struct ParseError;

/// First position at or after `p` holding a delimiter or whitespace; a
/// scalar token runs up to there.
pub open spec fn scalar_end(s: Seq<u8>, p: int) -> int
    decreases s.len() - p,
{
    if p < 0 || p >= s.len() {
        s.len() as int
    } else if s[p] == COMMA || s[p] == RBRACE || s[p] == RBRACKET || is_ws(s[p]) {
        p
    } else {
        scalar_end(s, p + 1)
    }
}

/// Parses one value of the minified text at position `p`: the position
/// just past the value and its flat preorder node sequence, or `None` when
/// the text there is not a well-formed value.
pub open spec fn parse_value_at(s: Seq<u8>, p: int) -> Option<(int, Seq<Node>)>
    decreases s.len() - p, 0int,
{
    if p < 0 || p >= s.len() {
        None
    } else if s[p] == LBRACE {
        match parse_members_at(s, p + 1, true) {
            Some(m) => Some(
                (
                    m.0,
                    seq![
                        Node {
                            descendant_count: m.1.len() as u32,
                            byte_length: (m.0 - p) as u32,
                        },
                    ] + m.1,
                ),
            ),
            None => None,
        }
    } else if s[p] == LBRACKET {
        match parse_items_at(s, p + 1, true) {
            Some(m) => Some(
                (
                    m.0,
                    seq![
                        Node {
                            descendant_count: m.1.len() as u32,
                            byte_length: (m.0 - p) as u32,
                        },
                    ] + m.1,
                ),
            ),
            None => None,
        }
    } else if s[p] == QUOTE {
        match string_end(s, p + 1) {
            Some(e) => if p + 2 <= e && e <= s.len() {
                Some((e, seq![Node { descendant_count: 0, byte_length: (e - p) as u32 }]))
            } else {
                None
            },
            None => None,
        }
    } else {
        let e = scalar_end(s, p);
        if p < e && e <= s.len() && leaf_wf(s.subrange(p, e)) {
            Some((e, seq![Node { descendant_count: 0, byte_length: (e - p) as u32 }]))
        } else {
            None
        }
    }
}

/// Parses the member list of an object whose opening brace sits right
/// before `p`, up to and including the closing brace.
pub open spec fn parse_members_at(s: Seq<u8>, p: int, first: bool) -> Option<(int, Seq<Node>)>
    decreases s.len() - p, 1int,
{
    if p < 0 || p >= s.len() {
        None
    } else if first && s[p] == RBRACE {
        Some((p + 1, Seq::empty()))
    } else if s[p] != QUOTE {
        None
    } else {
        match string_end(s, p + 1) {
            None => None,
            Some(ke) => if ke < p + 2 || ke >= s.len() {
                None
            } else if s[ke] != COLON {
                None
            } else {
                match parse_value_at(s, ke + 1) {
                    None => None,
                    Some(v) => {
                        let kn = Node { descendant_count: 0, byte_length: (ke - p) as u32 };
                        if v.0 <= ke + 1 || v.0 >= s.len() {
                            None
                        } else if s[v.0] == RBRACE {
                            Some((v.0 + 1, seq![kn] + v.1))
                        } else if s[v.0] == COMMA {
                            match parse_members_at(s, v.0 + 1, false) {
                                None => None,
                                Some(m) => Some((m.0, seq![kn] + v.1 + m.1)),
                            }
                        } else {
                            None
                        }
                    },
                }
            },
        }
    }
}

/// Parses the item list of an array whose opening bracket sits right
/// before `p`, up to and including the closing bracket.
pub open spec fn parse_items_at(s: Seq<u8>, p: int, first: bool) -> Option<(int, Seq<Node>)>
    decreases s.len() - p, 1int,
{
    if p < 0 || p >= s.len() {
        None
    } else if first && s[p] == RBRACKET {
        Some((p + 1, Seq::empty()))
    } else {
        match parse_value_at(s, p) {
            None => None,
            Some(v) => if v.0 <= p || v.0 >= s.len() {
                None
            } else if s[v.0] == RBRACKET {
                Some((v.0 + 1, v.1))
            } else if s[v.0] == COMMA {
                match parse_items_at(s, v.0 + 1, false) {
                    None => None,
                    Some(m) => Some((m.0, v.1 + m.1)),
                }
            } else {
                None
            },
        }
    }
}

/// The whole minified text parsed as exactly one value with nothing left
/// over.
pub open spec fn parsed_nodes(s: Seq<u8>) -> Option<Seq<Node>> {
    match parse_value_at(s, 0) {
        Some(v) => if v.0 == s.len() {
            Some(v.1)
        } else {
            None
        },
        None => None,
    }
}

/// A successfully parsed value is well-formed against its byte span.
pub proof fn lemma_parse_value_wf(s: Seq<u8>, p: int)
    requires
        s.len() <= u32::MAX,
        parse_value_at(s, p) is Some,
    ensures
        ({
            let t = parse_value_at(s, p).unwrap();
            &&& p < t.0 <= s.len()
            &&& 1 <= t.1.len() <= t.0 - p
            &&& value_wf(t.1, s.subrange(p, t.0))
        }),
    decreases s.len() - p, 0int,
{
    let t = parse_value_at(s, p).unwrap();
    let bs = s.subrange(p, t.0);
    if s[p] == LBRACE {
        lemma_parse_members_wf(s, p + 1, true);
        let m = parse_members_at(s, p + 1, true).unwrap();
        assert(t.1.skip(1) =~= m.1);
        assert(bs.skip(1) =~= s.subrange(p + 1, m.0));
        assert(value_wf(t.1, bs));
    } else if s[p] == LBRACKET {
        lemma_parse_items_wf(s, p + 1, true);
        let m = parse_items_at(s, p + 1, true).unwrap();
        assert(t.1.skip(1) =~= m.1);
        assert(bs.skip(1) =~= s.subrange(p + 1, m.0));
        assert(value_wf(t.1, bs));
    } else if s[p] == QUOTE {
        lemma_string_end_props(s, p + 1);
        assert(bs[0] == QUOTE);
        assert(leaf_wf(bs));
        assert(value_wf(t.1, bs));
    } else {
        assert(value_wf(t.1, bs));
    }
}

/// A successfully parsed member list is a well-formed member region.
pub proof fn lemma_parse_members_wf(s: Seq<u8>, p: int, first: bool)
    requires
        s.len() <= u32::MAX,
        parse_members_at(s, p, first) is Some,
    ensures
        ({
            let t = parse_members_at(s, p, first).unwrap();
            &&& p < t.0 <= s.len()
            &&& t.1.len() <= t.0 - p
            &&& (!first ==> t.1.len() >= 1)
            &&& members_wf(t.1, s.subrange(p, t.0))
        }),
    decreases s.len() - p, 1int,
{
    let t = parse_members_at(s, p, first).unwrap();
    let bs = s.subrange(p, t.0);
    if first && s[p] == RBRACE {
        assert(bs =~= seq![RBRACE]);
    } else {
        let ke = string_end(s, p + 1).unwrap();
        lemma_string_end_props(s, p + 1);
        lemma_parse_value_wf(s, ke + 1);
        let v = parse_value_at(s, ke + 1).unwrap();
        let ev = v.0;
        let kl = ke - p;
        let vl = ev - ke - 1;
        let vc = v.1.len() - 1;
        if s[ev] == RBRACE {
            assert(t.0 == ev + 1);
            assert(bs[0] == QUOTE);
            assert(bs[kl - 1] == QUOTE);
            assert(bs[kl] == COLON);
            assert(bs.subrange(kl + 1, kl + 1 + vl) =~= s.subrange(ke + 1, ev));
            assert(t.1 =~= seq![Node { descendant_count: 0, byte_length: kl as u32 }] + v.1);
            assert(t.1[1] == v.1[0]);
            assert(t.1.subrange(1, 2 + vc as int) =~= v.1);
            assert(bs[kl + 1 + vl] == RBRACE);
            assert(members_wf(t.1, bs));
        } else {
            lemma_parse_members_wf(s, ev + 1, false);
            let m = parse_members_at(s, ev + 1, false).unwrap();
            assert(t.0 == m.0);
            assert(bs[0] == QUOTE);
            assert(bs[kl - 1] == QUOTE);
            assert(bs[kl] == COLON);
            assert(bs.subrange(kl + 1, kl + 1 + vl) =~= s.subrange(ke + 1, ev));
            assert(t.1 =~= seq![Node { descendant_count: 0, byte_length: kl as u32 }] + v.1 + m.1);
            assert(t.1[1] == v.1[0]);
            assert(t.1.subrange(1, 2 + vc as int) =~= v.1);
            assert(t.1.skip(2 + vc as int) =~= m.1);
            assert(bs.skip(kl + 1 + vl + 1) =~= s.subrange(ev + 1, t.0));
            assert(bs[kl + 1 + vl] == COMMA);
            assert(members_wf(t.1, bs));
        }
    }
}

/// A successfully parsed item list is a well-formed item region.
pub proof fn lemma_parse_items_wf(s: Seq<u8>, p: int, first: bool)
    requires
        s.len() <= u32::MAX,
        parse_items_at(s, p, first) is Some,
    ensures
        ({
            let t = parse_items_at(s, p, first).unwrap();
            &&& p < t.0 <= s.len()
            &&& t.1.len() <= t.0 - p
            &&& (!first ==> t.1.len() >= 1)
            &&& items_wf(t.1, s.subrange(p, t.0))
        }),
    decreases s.len() - p, 1int,
{
    let t = parse_items_at(s, p, first).unwrap();
    let bs = s.subrange(p, t.0);
    if first && s[p] == RBRACKET {
        assert(bs =~= seq![RBRACKET]);
    } else {
        lemma_parse_value_wf(s, p);
        let v = parse_value_at(s, p).unwrap();
        let ev = v.0;
        let vl = ev - p;
        let vc = v.1.len() - 1;
        if s[ev] == RBRACKET {
            assert(t.0 == ev + 1);
            assert(bs.subrange(0, vl) =~= s.subrange(p, ev));
            assert(t.1 =~= v.1);
            assert(t.1.subrange(0, 1 + vc as int) =~= v.1);
            assert(bs[vl] == RBRACKET);
            assert(items_wf(t.1, bs));
        } else {
            lemma_parse_items_wf(s, ev + 1, false);
            let m = parse_items_at(s, ev + 1, false).unwrap();
            assert(t.0 == m.0);
            assert(bs.subrange(0, vl) =~= s.subrange(p, ev));
            assert(t.1 =~= v.1 + m.1);
            assert(t.1[0] == v.1[0]);
            assert(m.1.len() >= 1);
            assert(t.1.subrange(0, 1 + vc as int) =~= v.1);
            assert(t.1.skip(1 + vc as int) =~= m.1);
            assert(bs.skip(vl + 1) =~= s.subrange(ev + 1, t.0));
            assert(s[ev] == COMMA);
            assert(ev + 1 < t.0);
            assert(bs[vl] == s[ev]);
            assert(items_wf(t.1, bs));
        }
    }
}

fn scan_scalar(s: &[u8], p: usize) -> (r: usize)
    requires
        p <= s@.len(),
    ensures
        r as int == scalar_end(s@, p as int),
        p <= r <= s@.len(),
{
    let n = s.len();
    let mut cur: usize = p;
    while cur < n
        invariant
            p <= cur <= n,
            n == s@.len(),
            scalar_end(s@, p as int) == scalar_end(s@, cur as int),
        decreases n - cur,
    {
        let b = s[cur];
        if b == COMMA || b == RBRACE || b == RBRACKET || is_ws_b(b) {
            return cur;
        }
        cur = cur + 1;
    }
    cur
}

/// Checks that the token in `s[p..e]` is a well-formed leaf span: a
/// string, a number shape's first byte, or one of the three literals
/// spelled out exactly.
fn check_leaf(s: &[u8], p: usize, e: usize) -> (r: bool)
    requires
        p < e <= s@.len(),
    ensures
        r == leaf_wf(s@.subrange(p as int, e as int)),
{
    let ghost bs = s@.subrange(p as int, e as int);
    let b = s[p];
    proof {
        assert(bs[0] == b);
        assert(bs.len() == e - p);
    }
    if b == QUOTE || b == MINUS || (DIGIT_0 <= b && b <= DIGIT_9) {
        true
    } else if b == LIT_T {
        let r = e - p == 4 && s[p + 1] == LIT_R && s[p + 2] == LIT_U && s[p + 3] == LIT_E;
        proof {
            if e - p == 4 {
                assert(bs[1] == s@[p + 1] && bs[2] == s@[p + 2] && bs[3] == s@[p + 3]);
            }
        }
        r
    } else if b == LIT_F {
        let r = e - p == 5 && s[p + 1] == LIT_A && s[p + 2] == LIT_L && s[p + 3] == LIT_S && s[p
            + 4] == LIT_E;
        proof {
            if e - p == 5 {
                assert(bs[1] == s@[p + 1] && bs[2] == s@[p + 2] && bs[3] == s@[p + 3] && bs[4]
                    == s@[p + 4]);
            }
        }
        r
    } else if b == LIT_N {
        let r = e - p == 4 && s[p + 1] == LIT_U && s[p + 2] == LIT_L && s[p + 3] == LIT_L;
        proof {
            if e - p == 4 {
                assert(bs[1] == s@[p + 1] && bs[2] == s@[p + 2] && bs[3] == s@[p + 3]);
            }
        }
        r
    } else {
        false
    }
}

fn parse_value_rec(s: &[u8], p: usize, nodes: &mut Vec<Node>) -> (r: Option<usize>)
    requires
        s@.len() <= u32::MAX,
        p <= s@.len(),
    ensures
        match r {
            Some(e) => ({
                &&& parse_value_at(s@, p as int) is Some
                &&& e as int == parse_value_at(s@, p as int).unwrap().0
                &&& final(nodes)@ == old(nodes)@ + parse_value_at(s@, p as int).unwrap().1
                &&& p < e <= s@.len()
            }),
            None => parse_value_at(s@, p as int) is None && final(nodes)@ == old(nodes)@,
        },
    decreases s@.len() - p, 0int,
{
    let ghost pre = nodes@;
    if p >= s.len() {
        return None;
    }
    let b = s[p];
    if b == LBRACE {
        let idx = nodes.len();
        nodes.push(Node { descendant_count: 0, byte_length: 0 });
        match parse_members_rec(s, p + 1, true, nodes) {
            Some(e) => {
                let ghost m = parse_members_at(s@, p + 1, true).unwrap();
                let cnt = nodes.len() - idx - 1;
                let root = Node { descendant_count: cnt as u32, byte_length: (e - p) as u32 };
                nodes.set(idx, root);
                proof {
                    assert(nodes@ =~= pre + (seq![root] + m.1));
                }
                Some(e)
            },
            None => {
                nodes.truncate(idx);
                proof {
                    assert(nodes@ =~= pre);
                }
                None
            },
        }
    } else if b == LBRACKET {
        let idx = nodes.len();
        nodes.push(Node { descendant_count: 0, byte_length: 0 });
        match parse_items_rec(s, p + 1, true, nodes) {
            Some(e) => {
                let ghost m = parse_items_at(s@, p + 1, true).unwrap();
                let cnt = nodes.len() - idx - 1;
                let root = Node { descendant_count: cnt as u32, byte_length: (e - p) as u32 };
                nodes.set(idx, root);
                proof {
                    assert(nodes@ =~= pre + (seq![root] + m.1));
                }
                Some(e)
            },
            None => {
                nodes.truncate(idx);
                proof {
                    assert(nodes@ =~= pre);
                }
                None
            },
        }
    } else if b == QUOTE {
        match scan_string(s, p + 1) {
            Some(e) => {
                nodes.push(Node { descendant_count: 0, byte_length: (e - p) as u32 });
                Some(e)
            },
            None => None,
        }
    } else {
        let e = scan_scalar(s, p);
        if p < e && check_leaf(s, p, e) {
            nodes.push(Node { descendant_count: 0, byte_length: (e - p) as u32 });
            Some(e)
        } else {
            None
        }
    }
}

fn parse_members_rec(s: &[u8], p: usize, first: bool, nodes: &mut Vec<Node>) -> (r: Option<usize>)
    requires
        s@.len() <= u32::MAX,
        p <= s@.len(),
    ensures
        match r {
            Some(e) => ({
                &&& parse_members_at(s@, p as int, first) is Some
                &&& e as int == parse_members_at(s@, p as int, first).unwrap().0
                &&& final(nodes)@ == old(nodes)@ + parse_members_at(s@, p as int, first).unwrap().1
                &&& p < e <= s@.len()
            }),
            None => parse_members_at(s@, p as int, first) is None && final(nodes)@ == old(
                nodes,
            )@,
        },
    decreases s@.len() - p, 1int,
{
    let ghost pre = nodes@;
    if p >= s.len() {
        return None;
    }
    let b = s[p];
    if first && b == RBRACE {
        proof {
            assert(pre + Seq::<Node>::empty() =~= pre);
        }
        return Some(p + 1);
    }
    if b != QUOTE {
        return None;
    }
    let idx = nodes.len();
    match scan_string(s, p + 1) {
        None => None,
        Some(ke) => {
            if ke < p + 2 || ke >= s.len() {
                return None;
            }
            if s[ke] != COLON {
                return None;
            }
            nodes.push(Node { descendant_count: 0, byte_length: (ke - p) as u32 });
            match parse_value_rec(s, ke + 1, nodes) {
                None => {
                    nodes.truncate(idx);
                    proof {
                        assert(nodes@ =~= pre);
                    }
                    None
                },
                Some(ev) => {
                    let ghost v = parse_value_at(s@, ke + 1).unwrap();
                    let ghost kn = Node {
                        descendant_count: 0,
                        byte_length: (ke - p) as u32,
                    };
                    if ev >= s.len() {
                        nodes.truncate(idx);
                        proof {
                            assert(nodes@ =~= pre);
                        }
                        return None;
                    }
                    let d = s[ev];
                    if d == RBRACE {
                        proof {
                            assert(nodes@ =~= pre + (seq![kn] + v.1));
                        }
                        Some(ev + 1)
                    } else if d == COMMA {
                        match parse_members_rec(s, ev + 1, false, nodes) {
                            None => {
                                nodes.truncate(idx);
                                proof {
                                    assert(nodes@ =~= pre);
                                }
                                None
                            },
                            Some(em) => {
                                let ghost m = parse_members_at(s@, ev + 1, false).unwrap();
                                proof {
                                    assert(nodes@ =~= pre + (seq![kn] + v.1 + m.1));
                                }
                                Some(em)
                            },
                        }
                    } else {
                        nodes.truncate(idx);
                        proof {
                            assert(nodes@ =~= pre);
                        }
                        None
                    }
                },
            }
        },
    }
}

fn parse_items_rec(s: &[u8], p: usize, first: bool, nodes: &mut Vec<Node>) -> (r: Option<usize>)
    requires
        s@.len() <= u32::MAX,
        p <= s@.len(),
    ensures
        match r {
            Some(e) => ({
                &&& parse_items_at(s@, p as int, first) is Some
                &&& e as int == parse_items_at(s@, p as int, first).unwrap().0
                &&& final(nodes)@ == old(nodes)@ + parse_items_at(s@, p as int, first).unwrap().1
                &&& p < e <= s@.len()
            }),
            None => parse_items_at(s@, p as int, first) is None && final(nodes)@ == old(nodes)@,
        },
    decreases s@.len() - p, 1int,
{
    let ghost pre = nodes@;
    if p >= s.len() {
        return None;
    }
    let b = s[p];
    if first && b == RBRACKET {
        proof {
            assert(pre + Seq::<Node>::empty() =~= pre);
        }
        return Some(p + 1);
    }
    let idx = nodes.len();
    match parse_value_rec(s, p, nodes) {
        None => None,
        Some(ev) => {
            let ghost v = parse_value_at(s@, p as int).unwrap();
            if ev >= s.len() {
                nodes.truncate(idx);
                proof {
                    assert(nodes@ =~= pre);
                }
                return None;
            }
            let d = s[ev];
            if d == RBRACKET {
                Some(ev + 1)
            } else if d == COMMA {
                match parse_items_rec(s, ev + 1, false, nodes) {
                    None => {
                        nodes.truncate(idx);
                        proof {
                            assert(nodes@ =~= pre);
                        }
                        None
                    },
                    Some(em) => {
                        let ghost m = parse_items_at(s@, ev + 1, false).unwrap();
                        proof {
                            assert(nodes@ =~= pre + (v.1 + m.1));
                        }
                        Some(em)
                    },
                }
            } else {
                nodes.truncate(idx);
                proof {
                    assert(nodes@ =~= pre);
                }
                None
            }
        },
    }
}

/// Consumes already-minified bytes and produces the flat preorder node
/// array; fails when the input is not exactly one well-formed value, or
/// still holds insignificant whitespace.
pub fn parse(input: &[u8]) -> (r: Result<Vec<Node>, ParseError>)
    requires
        input@.len() <= u32::MAX,
    ensures
        match r {
            Ok(ns) => parsed_nodes(input@) == Some(ns@) && value_wf(ns@, input@),
            Err(e) => parsed_nodes(input@) is None,
        },
{
    let mut nodes: Vec<Node> = Vec::new();
    match parse_value_rec(input, 0, &mut nodes) {
        Some(e) => {
            if e == input.len() {
                proof {
                    lemma_parse_value_wf(input@, 0);
                    assert(input@.subrange(0, input@.len() as int) =~= input@);
                    assert(Seq::<Node>::empty() + parse_value_at(input@, 0).unwrap().1 =~= nodes@);
                }
                Ok(nodes)
            } else {
                Err(ParseError)
            }
        },
        None => Err(ParseError),
    }
}

} // verus!
