use vstd::prelude::*;
use crate::node::{QUOTE, BACKSLASH, LIT_U, LIT_T, LIT_F, LIT_N, LIT_R, DIGIT_0, DIGIT_9};
use crate::splice::push_all_at;
use vstd::slice::slice_subrange;

verus! {

/// Lexical failure while compacting raw input: an unterminated string or an
/// invalid escape sequence.
#[derive(Clone, Copy, PartialEq, Eq, Structural, Debug)]
pub struct LexError;

pub const SPACE: u8 = 32;
pub const TAB: u8 = 9;
pub const NEWLINE: u8 = 10;
pub const CARRIAGE_RETURN: u8 = 13;
pub const SLASH: u8 = 47;
pub const LIT_B: u8 = 98;

/// JSON insignificant whitespace.
pub open spec fn is_ws(b: u8) -> bool {
    b == SPACE || b == TAB || b == NEWLINE || b == CARRIAGE_RETURN
}

pub open spec fn is_hex_digit(b: u8) -> bool {
    ||| DIGIT_0 <= b && b <= DIGIT_9
    ||| 97 <= b && b <= 102
    ||| 65 <= b && b <= 70
}

/// The single characters that may follow a backslash in a string.
pub open spec fn is_simple_escape(b: u8) -> bool {
    ||| b == QUOTE
    ||| b == BACKSLASH
    ||| b == SLASH
    ||| b == LIT_B
    ||| b == LIT_F
    ||| b == LIT_N
    ||| b == LIT_R
    ||| b == LIT_T
}

/// The position just past the closing quote of a string whose opening quote
/// sits right before `p`, or `None` when the string is unterminated or an
/// escape is invalid.
pub open spec fn string_end(s: Seq<u8>, p: int) -> Option<int>
    decreases s.len() - p,
{
    if p < 0 || p >= s.len() {
        None
    } else if s[p] == QUOTE {
        Some(p + 1)
    } else if s[p] == BACKSLASH {
        if p + 1 >= s.len() {
            None
        } else if s[p + 1] == LIT_U {
            if p + 6 <= s.len() && is_hex_digit(s[p + 2]) && is_hex_digit(s[p + 3]) && is_hex_digit(
                s[p + 4],
            ) && is_hex_digit(s[p + 5]) {
                string_end(s, p + 6)
            } else {
                None
            }
        } else if is_simple_escape(s[p + 1]) {
            string_end(s, p + 2)
        } else {
            None
        }
    } else {
        string_end(s, p + 1)
    }
}

pub proof fn lemma_string_end_props(s: Seq<u8>, p: int)
    requires
        string_end(s, p) is Some,
    ensures
        p < string_end(s, p).unwrap() <= s.len(),
        s[string_end(s, p).unwrap() - 1] == QUOTE,
    decreases s.len() - p,
{
    if 0 <= p < s.len() && s[p] != QUOTE {
        if s[p] == BACKSLASH {
            if s[p + 1] == LIT_U {
                lemma_string_end_props(s, p + 6);
            } else {
                lemma_string_end_props(s, p + 2);
            }
        } else {
            lemma_string_end_props(s, p + 1);
        }
    }
}

/// The minified form of `s` from position `p` on: insignificant whitespace
/// outside strings dropped, strings copied verbatim; `None` on a lexical
/// error.
pub open spec fn minify_from(s: Seq<u8>, p: int) -> Option<Seq<u8>>
    decreases s.len() - p,
{
    if p < 0 || p >= s.len() {
        Some(Seq::empty())
    } else if is_ws(s[p]) {
        minify_from(s, p + 1)
    } else if s[p] == QUOTE {
        match string_end(s, p + 1) {
            Some(e) => if p + 1 < e && e <= s.len() {
                match minify_from(s, e) {
                    Some(rest) => Some(s.subrange(p, e) + rest),
                    None => None,
                }
            } else {
                None
            },
            None => None,
        }
    } else {
        match minify_from(s, p + 1) {
            Some(rest) => Some(seq![s[p]] + rest),
            None => None,
        }
    }
}

/// Minification never grows the text.
pub proof fn lemma_minify_len(s: Seq<u8>, p: int)
    requires
        0 <= p <= s.len(),
        minify_from(s, p) is Some,
    ensures
        minify_from(s, p).unwrap().len() <= s.len() - p,
    decreases s.len() - p,
{
    if p < s.len() {
        if is_ws(s[p]) {
            lemma_minify_len(s, p + 1);
        } else if s[p] == QUOTE {
            let e = string_end(s, p + 1).unwrap();
            lemma_minify_len(s, e);
        } else {
            lemma_minify_len(s, p + 1);
        }
    }
}

/// String scanning reads only the scanned window: any text holding the
/// same bytes at another position scans the same way.
proof fn lemma_string_end_window(s: Seq<u8>, p: int, t: Seq<u8>, q: int)
    requires
        0 <= p,
        0 <= q,
        string_end(s, p) is Some,
        q + (string_end(s, p).unwrap() - p) <= t.len(),
        t.subrange(q, q + (string_end(s, p).unwrap() - p)) == s.subrange(
            p,
            string_end(s, p).unwrap(),
        ),
    ensures
        string_end(t, q) == Some(q + (string_end(s, p).unwrap() - p)),
    decreases s.len() - p,
{
    let e = string_end(s, p).unwrap();
    let win = e - p;
    lemma_string_end_props(s, p);
    let ts = t.subrange(q, q + win);
    let ss = s.subrange(p, e);
    assert(t[q] == ts[0] && s[p] == ss[0]);
    if s[p] == QUOTE {
        assert(t[q] == QUOTE);
        assert(string_end(t, q) == Some(q + 1));
    } else if s[p] == BACKSLASH {
        assert(t[q + 1] == ts[1] && s[p + 1] == ss[1]);
        if s[p + 1] == LIT_U {
            lemma_string_end_props(s, p + 6);
            assert(t[q + 2] == ts[2] && s[p + 2] == ss[2]);
            assert(t[q + 3] == ts[3] && s[p + 3] == ss[3]);
            assert(t[q + 4] == ts[4] && s[p + 4] == ss[4]);
            assert(t[q + 5] == ts[5] && s[p + 5] == ss[5]);
            assert(t.subrange(q + 6, q + win) =~= ts.subrange(6, win));
            assert(s.subrange(p + 6, e) =~= ss.subrange(6, win));
            lemma_string_end_window(s, p + 6, t, q + 6);
            assert(string_end(t, q) == Some(q + win));
        } else {
            lemma_string_end_props(s, p + 2);
            assert(t.subrange(q + 2, q + win) =~= ts.subrange(2, win));
            assert(s.subrange(p + 2, e) =~= ss.subrange(2, win));
            lemma_string_end_window(s, p + 2, t, q + 2);
            assert(string_end(t, q) == Some(q + win));
        }
    } else {
        lemma_string_end_props(s, p + 1);
        assert(t.subrange(q + 1, q + win) =~= ts.subrange(1, win));
        assert(s.subrange(p + 1, e) =~= ss.subrange(1, win));
        lemma_string_end_window(s, p + 1, t, q + 1);
        assert(string_end(t, q) == Some(q + win));
    }
}

/// Minification of a suffix does not depend on the bytes before it.
proof fn lemma_minify_shift(s: Seq<u8>, d: int, p: int)
    requires
        0 <= d <= p,
        d <= s.len(),
    ensures
        minify_from(s, p) == minify_from(s.skip(d), p - d),
    decreases s.len() - p,
{
    let t = s.skip(d);
    if p < s.len() {
        assert(t[p - d] == s[p]);
        if is_ws(s[p]) {
            lemma_minify_shift(s, d, p + 1);
        } else if s[p] == QUOTE {
            if string_end(s, p + 1) is Some {
                let e = string_end(s, p + 1).unwrap();
                lemma_string_end_props(s, p + 1);
                assert(t.subrange(p + 1 - d, e - d) =~= s.subrange(p + 1, e));
                lemma_string_end_window(s, p + 1, t, p + 1 - d);
                lemma_minify_shift(s, d, e);
                assert(s.subrange(p, e) =~= t.subrange(p - d, e - d));
                if minify_from(s, e) is Some {
                    let rest = minify_from(s, e).unwrap();
                    assert(s.subrange(p, e) + rest =~= t.subrange(p - d, e - d) + rest);
                }
            } else {
                if string_end(t, p - d + 1) is Some {
                    let e2 = string_end(t, p - d + 1).unwrap();
                    lemma_string_end_props(t, p - d + 1);
                    assert(s.subrange(p + 1, p + 1 + (e2 - (p - d + 1))) =~= t.subrange(
                        p - d + 1,
                        e2,
                    ));
                    lemma_string_end_window(t, p - d + 1, s, p + 1);
                }
                assert(string_end(t, p - d + 1) is None);
            }
        } else {
            lemma_minify_shift(s, d, p + 1);
            if minify_from(s, p + 1) is Some {
                let rest = minify_from(s, p + 1).unwrap();
                assert(seq![s[p]] + rest =~= seq![t[p - d]] + rest);
            }
        }
    }
}

/// Compacting is idempotent: minified text passes through unchanged, so
/// compacting already-minified input is a no-op.
pub proof fn lemma_minify_idempotent(s: Seq<u8>, p: int)
    requires
        0 <= p,
        minify_from(s, p) is Some,
    ensures
        minify_from(minify_from(s, p).unwrap(), 0) == Some(minify_from(s, p).unwrap()),
    decreases s.len() - p,
{
    let r = minify_from(s, p).unwrap();
    if p >= s.len() {
        assert(r =~= Seq::<u8>::empty());
    } else if is_ws(s[p]) {
        lemma_minify_idempotent(s, p + 1);
    } else if s[p] == QUOTE {
        let e = string_end(s, p + 1).unwrap();
        lemma_string_end_props(s, p + 1);
        let w = s.subrange(p, e);
        lemma_minify_idempotent(s, e);
        let rest = minify_from(s, e).unwrap();
        assert(r == w + rest);
        assert(r.subrange(1, 1 + (e - p - 1)) =~= s.subrange(p + 1, e));
        lemma_string_end_window(s, p + 1, r, 1);
        assert(string_end(r, 1) == Some(e - p));
        lemma_minify_shift(r, e - p, e - p);
        assert(r.skip(e - p) =~= rest);
        assert(minify_from(r, e - p) == Some(rest));
        assert(r.subrange(0, e - p) =~= w);
        assert(minify_from(r, 0) == Some(r.subrange(0, e - p) + rest));
        assert(r.subrange(0, e - p) + rest =~= r);
    } else {
        lemma_minify_idempotent(s, p + 1);
        let rest = minify_from(s, p + 1).unwrap();
        assert(r == seq![s[p]] + rest);
        assert(r[0] == s[p]);
        lemma_minify_shift(r, 1, 1);
        assert(r.skip(1) =~= rest);
        assert(minify_from(r, 1) == Some(rest));
        assert(minify_from(r, 0) == Some(seq![r[0]] + rest));
        assert(seq![r[0]] + rest =~= r);
    }
}

pub(crate) fn is_ws_b(b: u8) -> (r: bool)
    ensures
        r == is_ws(b),
{
    b == SPACE || b == TAB || b == NEWLINE || b == CARRIAGE_RETURN
}

fn is_hex_digit_b(b: u8) -> (r: bool)
    ensures
        r == is_hex_digit(b),
{
    (DIGIT_0 <= b && b <= DIGIT_9) || (97 <= b && b <= 102) || (65 <= b && b <= 70)
}

fn is_simple_escape_b(b: u8) -> (r: bool)
    ensures
        r == is_simple_escape(b),
{
    b == QUOTE || b == BACKSLASH || b == SLASH || b == LIT_B || b == LIT_F || b == LIT_N || b
        == LIT_R || b == LIT_T
}

/// Scans a string body starting at `q` (just past the opening quote) and
/// reports the position just past the closing quote.
pub(crate) fn scan_string(s: &[u8], q: usize) -> (r: Option<usize>)
    requires
        q <= s@.len(),
    ensures
        match r {
            Some(e) => string_end(s@, q as int) == Some(e as int) && q < e <= s@.len(),
            None => string_end(s@, q as int) is None,
        },
{
    let n = s.len();
    let mut cur: usize = q;
    while cur < n
        invariant
            q <= cur <= n,
            n == s@.len(),
            string_end(s@, q as int) == string_end(s@, cur as int),
        decreases n - cur,
    {
        let b = s[cur];
        if b == QUOTE {
            proof {
                lemma_string_end_props(s@, cur as int);
            }
            return Some(cur + 1);
        }
        if b == BACKSLASH {
            if cur + 1 >= n {
                return None;
            }
            let c = s[cur + 1];
            if c == LIT_U {
                if n - cur >= 6 && is_hex_digit_b(s[cur + 2]) && is_hex_digit_b(s[cur + 3])
                    && is_hex_digit_b(s[cur + 4]) && is_hex_digit_b(s[cur + 5]) {
                    cur = cur + 6;
                } else {
                    return None;
                }
            } else if is_simple_escape_b(c) {
                cur = cur + 2;
            } else {
                return None;
            }
        } else {
            cur = cur + 1;
        }
    }
    None
}

/// Removes insignificant whitespace from raw JSON text, producing the
/// canonical minified form; fails on malformed lexical structure (an
/// unterminated string or an invalid escape) without producing partial
/// output.
pub fn compact(input: &[u8]) -> (r: Result<Vec<u8>, LexError>)
    ensures
        match r {
            Ok(out) => minify_from(input@, 0) == Some(out@),
            Err(e) => minify_from(input@, 0) is None,
        },
{
    let n = input.len();
    let mut out: Vec<u8> = Vec::new();
    let mut p: usize = 0;
    while p < n
        invariant
            p <= n,
            n == input@.len(),
            match minify_from(input@, p as int) {
                Some(rest) => minify_from(input@, 0) == Some(out@ + rest),
                None => minify_from(input@, 0) is None,
            },
        decreases n - p,
    {
        let b = input[p];
        if is_ws_b(b) {
            p = p + 1;
        } else if b == QUOTE {
            match scan_string(input, p + 1) {
                Some(e) => {
                    let ghost out0 = out@;
                    let piece = slice_subrange(input, p, e);
                    let len = out.len();
                    push_all_at(&mut out, len, piece);
                    proof {
                        assert(out@ =~= out0 + input@.subrange(p as int, e as int));
                        if minify_from(input@, e as int) is Some {
                            let rest = minify_from(input@, e as int).unwrap();
                            assert(out0 + (input@.subrange(p as int, e as int) + rest) =~= out@
                                + rest);
                        }
                    }
                    p = e;
                },
                None => {
                    return Err(LexError);
                },
            }
        } else {
            let ghost out0 = out@;
            out.push(b);
            proof {
                if minify_from(input@, p + 1) is Some {
                    let rest = minify_from(input@, p + 1).unwrap();
                    assert(out0 + (seq![input@[p as int]] + rest) =~= out@ + rest);
                }
            }
            p = p + 1;
        }
    }
    proof {
        assert(out@ + Seq::<u8>::empty() =~= out@);
    }
    Ok(out)
}

} // verus!
