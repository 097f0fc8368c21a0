use vstd::prelude::*;

verus! {

/// ASCII bytes of the JSON structural characters and literal spellings.
pub const QUOTE: u8 = 34;
pub const COMMA: u8 = 44;
pub const MINUS: u8 = 45;
pub const COLON: u8 = 58;
pub const LBRACKET: u8 = 91;
pub const BACKSLASH: u8 = 92;
pub const RBRACKET: u8 = 93;
pub const LBRACE: u8 = 123;
pub const RBRACE: u8 = 125;
pub const DIGIT_0: u8 = 48;
pub const DIGIT_9: u8 = 57;
pub const LIT_T: u8 = 116;
pub const LIT_R: u8 = 114;
pub const LIT_U: u8 = 117;
pub const LIT_E: u8 = 101;
pub const LIT_F: u8 = 102;
pub const LIT_A: u8 = 97;
pub const LIT_L: u8 = 108;
pub const LIT_S: u8 = 115;
pub const LIT_N: u8 = 110;

/// A structural descriptor in the flat, pointer-free encoding of a JSON
/// document.
///
/// `descendant_count` counts every flattened node below this one
/// (transitively, not just direct children), and `byte_length` is the length
/// in bytes of this node's own textual span in the compacted buffer,
/// excluding the single delimiter byte (`,`, `}` or `]`) that follows it.
#[derive(Clone, Copy, PartialEq, Eq, Structural, Debug)]
pub struct Node {
    pub descendant_count: u32,
    pub byte_length: u32,
}

pub open spec fn is_digit(b: u8) -> bool {
    DIGIT_0 <= b && b <= DIGIT_9
}

/// The bytes a leaf span may start with: a string, a number, or one of the
/// three literals.
pub open spec fn leaf_head(b: u8) -> bool {
    ||| b == QUOTE
    ||| b == MINUS
    ||| is_digit(b)
    ||| b == LIT_T
    ||| b == LIT_F
    ||| b == LIT_N
}

/// A well-formed leaf span: its first byte decides its kind, and the three
/// literals are spelled out exactly.
pub open spec fn leaf_wf(bs: Seq<u8>) -> bool {
    &&& bs.len() >= 1
    &&& leaf_head(bs[0])
    &&& (bs[0] == LIT_T ==> bs.len() == 4 && bs[1] == LIT_R && bs[2] == LIT_U && bs[3] == LIT_E)
    &&& (bs[0] == LIT_F ==> bs.len() == 5 && bs[1] == LIT_A && bs[2] == LIT_L && bs[3] == LIT_S
        && bs[4] == LIT_E)
    &&& (bs[0] == LIT_N ==> bs.len() == 4 && bs[1] == LIT_U && bs[2] == LIT_L && bs[3] == LIT_L)
}

/// Well-formedness of one flattened JSON value: `ns` is the full preorder
/// subtree (root first, `1 + descendant_count` entries) and `bs` is exactly
/// the value's own byte span.
///
/// An object or array span opens with its bracket; the nodes after the root
/// are its member list, checked by `members_wf` / `items_wf` against the span
/// with the opening bracket removed (the closing bracket stays, serving as
/// the final delimiter).
pub open spec fn value_wf(ns: Seq<Node>, bs: Seq<u8>) -> bool
    decreases ns.len(), 0int,
{
    &&& ns.len() >= 1
    &&& ns[0].descendant_count as int == ns.len() - 1
    &&& ns[0].byte_length as int == bs.len()
    &&& bs.len() >= 1
    &&& (bs[0] == LBRACE ==> members_wf(ns.skip(1), bs.skip(1)))
    &&& (bs[0] == LBRACKET ==> items_wf(ns.skip(1), bs.skip(1)))
    &&& (bs[0] != LBRACE && bs[0] != LBRACKET ==> ns.len() == 1 && leaf_wf(bs))
}

/// Well-formedness of an object's member region: `ns` holds the flattened
/// key/value pairs in order, `bs` the matching bytes from just after `{`
/// through the closing `}` inclusive.
///
/// Each pair is a key node (a quoted string, no descendants), a `:`, the
/// value's subtree and span, and exactly one delimiter after the value: `,`
/// when more pairs follow, `}` when this pair is the last.
pub open spec fn members_wf(ns: Seq<Node>, bs: Seq<u8>) -> bool
    decreases ns.len(), 1int,
{
    if ns.len() == 0 {
        bs.len() == 1 && bs[0] == RBRACE
    } else {
        let kl = ns[0].byte_length as int;
        let vc = ns[1].descendant_count as int;
        let vl = ns[1].byte_length as int;
        &&& ns.len() >= 2
        &&& ns[0].descendant_count == 0
        &&& kl >= 2
        &&& 2 + vc <= ns.len()
        &&& kl + 1 + vl + 1 <= bs.len()
        &&& bs[0] == QUOTE
        &&& bs[kl - 1] == QUOTE
        &&& bs[kl] == COLON
        &&& value_wf(ns.subrange(1, 2 + vc), bs.subrange(kl + 1, kl + 1 + vl))
        &&& if ns.len() == 2 + vc {
            bs[kl + 1 + vl] == RBRACE && bs.len() == kl + 1 + vl + 1
        } else {
            bs[kl + 1 + vl] == COMMA && members_wf(ns.skip(2 + vc), bs.skip(kl + 1 + vl + 1))
        }
    }
}

/// Well-formedness of an array's item region, in the same style as
/// `members_wf`: each item is a value subtree and span followed by one
/// delimiter, `,` between items and `]` after the last.
pub open spec fn items_wf(ns: Seq<Node>, bs: Seq<u8>) -> bool
    decreases ns.len(), 1int,
{
    if ns.len() == 0 {
        bs.len() == 1 && bs[0] == RBRACKET
    } else {
        let vc = ns[0].descendant_count as int;
        let vl = ns[0].byte_length as int;
        &&& 1 + vc <= ns.len()
        &&& vl + 1 <= bs.len()
        &&& value_wf(ns.subrange(0, 1 + vc), bs.subrange(0, vl))
        &&& if ns.len() == 1 + vc {
            bs[vl] == RBRACKET && bs.len() == vl + 1
        } else {
            bs[vl] == COMMA && items_wf(ns.skip(1 + vc), bs.skip(vl + 1))
        }
    }
}

} // verus!
