use vstd::prelude::*;
use vstd::pervasive::VecAdditionalExecFns;
use vstd::slice::slice_subrange;
use crate::node::{Node, value_wf, members_wf, LBRACE, RBRACE, QUOTE, COLON, COMMA};
use crate::locate::{
    find_pair, key_location, has_key, removal_byte_start, removal_byte_end, without_pair,
    extracted_value, shift_loc, appended, prepended, lemma_skip_skip, lemma_remove_preserves_wf,
    lemma_add_key_wf, lemma_prepend_key_wf,
};
use crate::splice::{remove_range, copy_range, push_all_at};
use crate::lex::{compact, minify_from, lemma_minify_len};
use crate::traverse::{pos_view, child_positions, walk_ok, lemma_child_walk};
use crate::parse::{parse, parsed_nodes};

verus! {

/// The three ranges the key locator reports for a found pair: the node
/// index range of the pair, the byte range a delete removes (separator
/// ownership already applied), and the byte range of the value alone.
struct KeyParts {
    node_start: usize,
    node_end: usize,
    byte_start: usize,
    byte_end: usize,
    value_start: usize,
    value_end: usize,
}

/// Compares `pat` against the bytes of `buf` starting at `start`.
fn range_matches(buf: &Vec<u8>, start: usize, pat: &[u8]) -> (r: bool)
    requires
        start + pat@.len() <= buf@.len(),
    ensures
        r == (buf@.subrange(start as int, start + pat@.len()) == pat@),
{
    let ghost target = buf@.subrange(start as int, start + pat@.len());
    let n = buf.len();
    let mut j: usize = 0;
    while j < pat.len()
        invariant
            j <= pat@.len(),
            n == buf@.len(),
            start + pat@.len() <= n,
            target == buf@.subrange(start as int, start + pat@.len()),
            forall|x: int| 0 <= x < j ==> buf@[start + x] == pat@[x],
        decreases pat@.len() - j,
    {
        if buf[start + j] != pat[j] {
            proof {
                assert(target[j as int] != pat@[j as int]);
            }
            return false;
        }
        j = j + 1;
    }
    proof {
        assert(target =~= pat@);
    }
    true
}

/// Whether `Value::from_slice` accepts `bytes`: compaction succeeds (no
/// unterminated string or invalid escape) and the minified text parses as
/// exactly one well-formed JSON value.
pub open spec fn from_slice_ok(bytes: Seq<u8>) -> bool {
    &&& minify_from(bytes, 0) is Some
    &&& parsed_nodes(minify_from(bytes, 0).unwrap()) is Some
}

/// A parsed JSON document, held as a flat preorder node array paired with
/// its compacted (whitespace-free) byte buffer. The two arrays are owned as
/// a unit and every edit keeps them in lockstep.
#[derive(Debug, Clone, PartialEq, Eq)]
pub struct Value {
    pub nodes: Vec<Node>,
    pub compacted: Vec<u8>,
}

impl Value {
    /// The structural invariant that construction establishes and every
    /// operation preserves: the node array and the buffer describe one
    /// well-formed value, with the root's bookkeeping exact.
    pub open spec fn wf(self) -> bool {
        value_wf(self.nodes@, self.compacted@)
    }

    pub open spec fn is_object(self) -> bool {
        self.compacted@.len() >= 1 && self.compacted@[0] == LBRACE
    }

    /// Reassembles a value from a node array and buffer that are already
    /// known to be well-formed, for instance ones taken apart earlier.
    pub fn from_parts(nodes: Vec<Node>, compacted: Vec<u8>) -> (r: Value)
        requires
            value_wf(nodes@, compacted@),
        ensures
            r.wf(),
            r.nodes@ == nodes@,
            r.compacted@ == compacted@,
    {
        Value { nodes, compacted }
    }

    /// Builds a value from raw JSON text: compacts it, then parses the
    /// minified bytes into the flat node array. The input must be
    /// lexically and structurally valid JSON.
    pub fn from_slice(bytes: &[u8]) -> (r: Value)
        requires
            bytes@.len() <= u32::MAX,
            from_slice_ok(bytes@),
        ensures
            r.wf(),
            r.compacted@ == minify_from(bytes@, 0).unwrap(),
            r.nodes@ == parsed_nodes(minify_from(bytes@, 0).unwrap()).unwrap(),
    {
        let compacted = match compact(bytes) {
            Ok(m) => m,
            Err(_) => {
                proof {
                    assert(false);
                }
                Vec::new()
            },
        };
        proof {
            lemma_minify_len(bytes@, 0);
        }
        let nodes = match parse(compacted.as_slice()) {
            Ok(ns) => ns,
            Err(_) => {
                proof {
                    assert(false);
                }
                Vec::new()
            },
        };
        Value { nodes, compacted }
    }

    /// The compacted buffer itself: at all times a directly re-emittable,
    /// whitespace-free JSON document.
    pub fn as_bytes(&self) -> (r: &[u8])
        ensures
            r@ == self.compacted@,
    {
        self.compacted.as_slice()
    }

    /// Appends the pair `key`: `value` before the closing brace of an
    /// object, inserting the comma the new pair owes when the object was
    /// non-empty; on a non-object receiver nothing changes.
    pub fn add_key(&mut self, key: &[u8], value: &Value)
        requires
            old(self).wf(),
            value.wf(),
            old(self).is_object() ==> old(self).compacted@.len() + key@.len()
                + value.compacted@.len() + 4 <= u32::MAX,
            old(self).is_object() ==> old(self).nodes@.len() + value.nodes@.len() <= u32::MAX,
        ensures
            final(self).wf(),
            old(self).is_object() ==> (final(self).nodes@, final(self).compacted@) == appended(
                old(self).nodes@,
                old(self).compacted@,
                key@,
                value.nodes@,
                value.compacted@,
            ),
            !old(self).is_object() ==> *final(self) == *old(self),
    {
        let ghost ns = self.nodes@;
        let ghost bs = self.compacted@;
        if self.compacted[0] == LBRACE {
            proof {
                lemma_add_key_wf(ns, bs, key@, value.nodes@, value.compacted@);
            }
            let _ = self.compacted.pop();
            if self.nodes.len() > 1 {
                self.compacted.push(COMMA);
            }
            self.compacted.push(QUOTE);
            let len = self.compacted.len();
            push_all_at(&mut self.compacted, len, key);
            self.compacted.push(QUOTE);
            self.compacted.push(COLON);
            let len = self.compacted.len();
            push_all_at(&mut self.compacted, len, value.compacted.as_slice());
            self.compacted.push(RBRACE);
            proof {
                assert(self.compacted@ =~= appended(ns, bs, key@, value.nodes@, value.compacted@).1);
            }
            let n = self.nodes.len();
            let vn = value.nodes.len();
            let m = self.compacted.len();
            self.nodes.set(
                0,
                Node { descendant_count: (n + vn) as u32, byte_length: m as u32 },
            );
            self.nodes.push(Node { descendant_count: 0, byte_length: (key.len() + 2) as u32 });
            let len = self.nodes.len();
            push_all_at(&mut self.nodes, len, value.nodes.as_slice());
            proof {
                assert(self.nodes@ =~= appended(ns, bs, key@, value.nodes@, value.compacted@).0);
            }
        }
    }

    /// Inserts the pair `key`: `value` immediately after the opening brace
    /// of an object, inserting the comma the new pair owes when the object
    /// was non-empty; on a non-object receiver nothing changes.
    #[verifier::rlimit(60)]
    pub fn prepend_key(&mut self, key: &[u8], value: &Value)
        requires
            old(self).wf(),
            value.wf(),
            old(self).is_object() ==> old(self).compacted@.len() + key@.len()
                + value.compacted@.len() + 4 <= u32::MAX,
            old(self).is_object() ==> old(self).nodes@.len() + value.nodes@.len() <= u32::MAX,
        ensures
            final(self).wf(),
            old(self).is_object() ==> (final(self).nodes@, final(self).compacted@) == prepended(
                old(self).nodes@,
                old(self).compacted@,
                key@,
                value.nodes@,
                value.compacted@,
            ),
            !old(self).is_object() ==> *final(self) == *old(self),
    {
        let ghost ns = self.nodes@;
        let ghost bs = self.compacted@;
        if self.compacted[0] == LBRACE {
            proof {
                lemma_prepend_key_wf(ns, bs, key@, value.nodes@, value.compacted@);
            }
            self.compacted.insert(1, QUOTE);
            push_all_at(&mut self.compacted, 2, key);
            self.compacted.insert(key.len() + 2, QUOTE);
            self.compacted.insert(key.len() + 3, COLON);
            push_all_at(&mut self.compacted, key.len() + 4, value.compacted.as_slice());
            if self.nodes.len() > 1 {
                self.compacted.insert(key.len() + value.compacted.len() + 4, COMMA);
            }
            proof {
                assert(self.compacted@ =~= prepended(
                    ns,
                    bs,
                    key@,
                    value.nodes@,
                    value.compacted@,
                ).1);
            }
            let n = self.nodes.len();
            let vn = value.nodes.len();
            let m = self.compacted.len();
            self.nodes.set(
                0,
                Node { descendant_count: (n + vn) as u32, byte_length: m as u32 },
            );
            push_all_at(&mut self.nodes, 1, value.nodes.as_slice());
            self.nodes.insert(1, Node { descendant_count: 0, byte_length: (key.len() + 2) as u32 });
            proof {
                assert(self.nodes@ =~= prepended(ns, bs, key@, value.nodes@, value.compacted@).0);
            }
        }
    }

    /// Child view: one entry per immediate child of this value (for an
    /// object, keys and values both count as children; a leaf has none):
    /// the child's node index and the byte offset of its span. The child's
    /// subtree is `nodes[i .. i + 1 + descendant_count]`, its span is
    /// `compacted[off .. off + byte_length]`, and exactly one delimiter
    /// byte follows the span.
    pub fn children(&self) -> (r: Vec<(usize, usize)>)
        requires
            self.wf(),
        ensures
            pos_view(r@) == child_positions(self.nodes@, 1, 1),
    {
        let ghost ns = self.nodes@;
        proof {
            lemma_child_walk(ns, self.compacted@);
        }
        let n = self.nodes.len();
        let m = self.compacted.len();
        let mut out: Vec<(usize, usize)> = Vec::new();
        let mut i: usize = 1;
        let mut off: usize = 1;
        proof {
            assert(pos_view(out@) =~= Seq::<(int, int)>::empty());
        }
        while i < n
            invariant
                n == ns.len(),
                ns == self.nodes@,
                m == self.compacted@.len(),
                1 <= i,
                1 <= off <= m,
                walk_ok(ns, self.compacted@, i as int, off as int),
                pos_view(out@) + child_positions(ns, i as int, off as int) == child_positions(
                    ns,
                    1,
                    1,
                ),
            decreases n - i,
        {
            let dc = self.nodes[i].descendant_count as usize;
            let bl = self.nodes[i].byte_length as usize;
            let ghost out0 = out@;
            out.push((i, off));
            proof {
                assert(i + 1 + dc <= n && off + bl + 1 <= m);
                assert(pos_view(out@) =~= pos_view(out0) + seq![(i as int, off as int)]);
                assert(child_positions(ns, i as int, off as int) =~= seq![
                    (i as int, off as int),
                ] + child_positions(ns, i + 1 + dc, off + bl + 1));
                assert(pos_view(out@) + child_positions(ns, i + 1 + dc, off + bl + 1) =~= pos_view(
                    out0,
                ) + child_positions(ns, i as int, off as int));
            }
            i = i + 1 + dc;
            off = off + bl + 1;
        }
        proof {
            assert(child_positions(ns, i as int, off as int) =~= Seq::<(int, int)>::empty());
            assert(pos_view(out@) + Seq::<(int, int)>::empty() =~= pos_view(out@));
        }
        out
    }

    /// Key locator: one linear scan over the top-level pairs of an object,
    /// skipping each value's whole subtree by its own descendant count,
    /// never descending into values. Reports the located pair's ranges, or
    /// `None` when the receiver is not an object or no key matches.
    fn find_key_parts(&self, key: &[u8]) -> (r: Option<KeyParts>)
        requires
            self.wf(),
        ensures
            match key_location(self.nodes@, self.compacted@, key@) {
                Some(loc) => r matches Some(kp) && {
                    let kl = self.nodes@[loc.0].byte_length as int;
                    let vc = self.nodes@[loc.0 + 1].descendant_count as int;
                    let vl = self.nodes@[loc.0 + 1].byte_length as int;
                    &&& kp.node_start as int == loc.0
                    &&& kp.node_end as int == loc.0 + 2 + vc
                    &&& kp.byte_start as int == removal_byte_start(self.nodes@, loc.0, loc.1)
                    &&& kp.byte_end as int == removal_byte_end(self.nodes@, loc.0, loc.1)
                    &&& kp.value_start as int == loc.1 + kl + 1
                    &&& kp.value_end as int == loc.1 + kl + 1 + vl
                },
                None => r is None,
            },
    {
        let ghost ns = self.nodes@;
        let ghost bs = self.compacted@;
        if self.compacted[0] != LBRACE {
            return None;
        }
        let mut i: usize = 1;
        let mut off: usize = 1;
        while i < self.nodes.len()
            invariant
                self.wf(),
                bs == self.compacted@,
                ns == self.nodes@,
                bs[0] == LBRACE,
                1 <= i <= ns.len(),
                1 <= off <= bs.len(),
                members_wf(ns.skip(i as int), bs.skip(off as int)),
                key_location(ns, bs, key@) == shift_loc(
                    find_pair(ns.skip(i as int), bs.skip(off as int), key@),
                    i as int,
                    off as int,
                ),
            decreases ns.len() - i,
        {
            let ghost rn = ns.skip(i as int);
            let ghost rb = bs.skip(off as int);
            proof {
                assert(rn.len() >= 1);
                assert(rn.len() >= 2);
            }
            let kn = self.nodes[i];
            let vn = self.nodes[i + 1];
            let kl = kn.byte_length as usize;
            let vc = vn.descendant_count as usize;
            let vl = vn.byte_length as usize;
            proof {
                assert(rn[0] == kn && rn[1] == vn);
                assert(kl >= 2 && i + 2 + vc <= ns.len() && off + kl + 1 + vl + 1 <= bs.len());
            }
            if kl >= 2 && key.len() == kl - 2 && range_matches(&self.compacted, off + 1, key) {
                proof {
                    assert(rb.subrange(1, kl - 1) =~= bs.subrange(off + 1, off + kl - 1));
                    assert(bs.subrange(off + 1, off + 1 + key@.len()) =~= bs.subrange(
                        off + 1,
                        off + kl - 1,
                    ));
                    assert(find_pair(rn, rb, key@) == Some((0int, 0int)));
                }
                let last = i + 2 + vc == self.nodes.len();
                let first = i == 1;
                let byte_start = if first || !last {
                    off
                } else {
                    off - 1
                };
                let byte_end = if last {
                    off + kl + 1 + vl
                } else {
                    off + kl + 1 + vl + 1
                };
                return Some(
                    KeyParts {
                        node_start: i,
                        node_end: i + 2 + vc,
                        byte_start,
                        byte_end,
                        value_start: off + kl + 1,
                        value_end: off + kl + 1 + vl,
                    },
                );
            }
            proof {
                assert(rb.subrange(1, kl - 1) =~= bs.subrange(off + 1, off + kl - 1));
                if kl >= 2 && key@.len() == kl - 2 {
                    assert(bs.subrange(off + 1, off + 1 + key@.len()) =~= bs.subrange(
                        off + 1,
                        off + kl - 1,
                    ));
                }
                assert(!(kl >= 2 && key@.len() == kl - 2 && rb.subrange(1, kl - 1) == key@));
            }
            if i + 2 + vc == self.nodes.len() {
                proof {
                    assert(rn.skip(2 + vc as int).len() < 2);
                    assert(find_pair(rn.skip(2 + vc as int), rb.skip(kl + 1 + vl + 1), key@)
                        is None);
                    assert(find_pair(rn, rb, key@) is None);
                }
                return None;
            }
            proof {
                lemma_skip_skip(ns, i as int, 2 + vc as int);
                lemma_skip_skip(bs, off as int, kl + 1 + vl + 1);
                assert(find_pair(rn, rb, key@) == shift_loc(
                    find_pair(rn.skip(2 + vc as int), rb.skip(kl + 1 + vl + 1), key@),
                    2 + vc as int,
                    kl + 1 + vl + 1,
                ));
            }
            i = i + 2 + vc;
            off = off + kl + 1 + vl + 1;
        }
        proof {
            assert(ns.skip(i as int).len() < 2);
            assert(find_pair(ns.skip(i as int), bs.skip(off as int), key@) is None);
        }
        None
    }

    /// Exact-key lookup on a top-level object: the located value's node
    /// subtree and byte span, or `None` when the key is absent or the
    /// receiver is not an object.
    pub fn get_key(&self, key: &[u8]) -> (r: Option<(&[Node], &[u8])>)
        requires
            self.wf(),
        ensures
            match key_location(self.nodes@, self.compacted@, key@) {
                Some(loc) => r matches Some(p) && {
                    &&& (p.0@, p.1@) == extracted_value(self.nodes@, self.compacted@, loc.0, loc.1)
                    &&& value_wf(p.0@, p.1@)
                },
                None => r is None,
            },
            r is Some <==> has_key(self.nodes@, self.compacted@, key@),
    {
        match self.find_key_parts(key) {
            Some(kp) => {
                proof {
                    let loc = key_location(self.nodes@, self.compacted@, key@).unwrap();
                    lemma_remove_preserves_wf(self.nodes@, self.compacted@, key@, loc.0, loc.1);
                }
                let nodes = slice_subrange(self.nodes.as_slice(), kp.node_start + 1, kp.node_end);
                let bytes = slice_subrange(self.compacted.as_slice(), kp.value_start, kp.value_end);
                Some((nodes, bytes))
            },
            None => None,
        }
    }

    /// Deletes the pair holding `key` under the separator-ownership rule
    /// and extracts its value as a new, independent `Value` (the key is
    /// discarded); `None` when the key is absent or the receiver is not an
    /// object, in which case nothing changes.
    pub fn remove_key(&mut self, key: &[u8]) -> (r: Option<Value>)
        requires
            old(self).wf(),
        ensures
            final(self).wf(),
            match key_location(old(self).nodes@, old(self).compacted@, key@) {
                Some(loc) => {
                    &&& (final(self).nodes@, final(self).compacted@) == without_pair(
                        old(self).nodes@,
                        old(self).compacted@,
                        loc.0,
                        loc.1,
                    )
                    &&& r matches Some(v) && (v.nodes@, v.compacted@) == extracted_value(
                        old(self).nodes@,
                        old(self).compacted@,
                        loc.0,
                        loc.1,
                    ) && v.wf()
                },
                None => r is None && *final(self) == *old(self),
            },
    {
        match self.find_key_parts(key) {
            Some(kp) => {
                proof {
                    let loc = key_location(self.nodes@, self.compacted@, key@).unwrap();
                    lemma_remove_preserves_wf(self.nodes@, self.compacted@, key@, loc.0, loc.1);
                }
                let new_compacted = copy_range(&self.compacted, kp.value_start, kp.value_end);
                let new_nodes = copy_range(&self.nodes, kp.node_start + 1, kp.node_end);
                remove_range(&mut self.compacted, kp.byte_start, kp.byte_end);
                remove_range(&mut self.nodes, kp.node_start, kp.node_end);
                let n = self.nodes.len();
                let m = self.compacted.len();
                self.nodes.set(
                    0,
                    Node { descendant_count: (n - 1) as u32, byte_length: m as u32 },
                );
                Some(Value { nodes: new_nodes, compacted: new_compacted })
            },
            None => None,
        }
    }

    /// Deletes the pair holding `key` exactly as `remove_key` does, without
    /// extracting the removed value.
    pub fn discard_key(&mut self, key: &[u8])
        requires
            old(self).wf(),
        ensures
            final(self).wf(),
            match key_location(old(self).nodes@, old(self).compacted@, key@) {
                Some(loc) => (final(self).nodes@, final(self).compacted@) == without_pair(
                    old(self).nodes@,
                    old(self).compacted@,
                    loc.0,
                    loc.1,
                ),
                None => *final(self) == *old(self),
            },
    {
        match self.find_key_parts(key) {
            Some(kp) => {
                proof {
                    let loc = key_location(self.nodes@, self.compacted@, key@).unwrap();
                    lemma_remove_preserves_wf(self.nodes@, self.compacted@, key@, loc.0, loc.1);
                }
                remove_range(&mut self.compacted, kp.byte_start, kp.byte_end);
                remove_range(&mut self.nodes, kp.node_start, kp.node_end);
                let n = self.nodes.len();
                let m = self.compacted.len();
                self.nodes.set(
                    0,
                    Node { descendant_count: (n - 1) as u32, byte_length: m as u32 },
                );
            },
            None => {},
        }
    }
}

} // verus!
