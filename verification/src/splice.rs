use vstd::prelude::*;

verus! {

/// The sequence `s` with the range `[a, b)` spliced out: everything before
/// `a`, then everything from `b` on.
pub open spec fn splice_out<A>(s: Seq<A>, a: int, b: int) -> Seq<A> {
    s.subrange(0, a) + s.subrange(b, s.len() as int)
}

/// Removes the elements of `v` in the range `[a, b)`, keeping the relative
/// order of the rest.
pub(crate) fn remove_range<T: Copy>(v: &mut Vec<T>, a: usize, b: usize)
    requires
        a <= b && b <= old(v)@.len(),
    ensures
        final(v)@ == splice_out(old(v)@, a as int, b as int),
{
    let mut out: Vec<T> = Vec::new();
    let mut i: usize = 0;
    while i < a
        invariant
            i <= a <= b <= v@.len(),
            out@ == v@.subrange(0, i as int),
        decreases a - i,
    {
        out.push(v[i]);
        proof {
            assert(out@ =~= v@.subrange(0, i + 1));
        }
        i = i + 1;
    }
    let mut k: usize = b;
    while k < v.len()
        invariant
            a <= b <= k <= v@.len(),
            out@ == v@.subrange(0, a as int) + v@.subrange(b as int, k as int),
        decreases v@.len() - k,
    {
        out.push(v[k]);
        proof {
            assert(out@ =~= v@.subrange(0, a as int) + v@.subrange(b as int, k + 1));
        }
        k = k + 1;
    }
    proof {
        assert(out@ =~= v@.subrange(0, a as int) + v@.subrange(b as int, v@.len() as int));
    }
    *v = out;
}

/// Copies the elements of `v` in the range `[a, b)` into a fresh vector.
pub(crate) fn copy_range<T: Copy>(v: &Vec<T>, a: usize, b: usize) -> (r: Vec<T>)
    requires
        a <= b && b <= v@.len(),
    ensures
        r@ == v@.subrange(a as int, b as int),
{
    let mut out: Vec<T> = Vec::new();
    let mut i: usize = a;
    while i < b
        invariant
            a <= i <= b <= v@.len(),
            out@ == v@.subrange(a as int, i as int),
        decreases b - i,
    {
        out.push(v[i]);
        proof {
            assert(out@ =~= v@.subrange(a as int, i + 1));
        }
        i = i + 1;
    }
    out
}

/// Inserts the whole of `s` into `v` at `offset`, keeping the relative order
/// of all existing elements: the result is the prefix of `v` before
/// `offset`, then `s`, then the rest of `v`.
pub fn push_all_at<T: Copy>(v: &mut Vec<T>, offset: usize, s: &[T])
    requires
        offset <= old(v)@.len(),
    ensures
        final(v)@ == old(v)@.subrange(0, offset as int) + s@ + old(v)@.skip(offset as int),
{
    if s.len() == 0 {
        proof {
            assert(v@ =~= v@.subrange(0, offset as int) + s@ + v@.skip(offset as int));
        }
        return ;
    }
    let mut out: Vec<T> = Vec::new();
    let mut i: usize = 0;
    while i < offset
        invariant
            i <= offset <= v@.len(),
            out@ == v@.subrange(0, i as int),
        decreases offset - i,
    {
        out.push(v[i]);
        proof {
            assert(out@ =~= v@.subrange(0, i + 1));
        }
        i = i + 1;
    }
    let mut j: usize = 0;
    while j < s.len()
        invariant
            j <= s@.len(),
            offset <= v@.len(),
            out@ == v@.subrange(0, offset as int) + s@.subrange(0, j as int),
        decreases s@.len() - j,
    {
        out.push(s[j]);
        proof {
            assert(out@ =~= v@.subrange(0, offset as int) + s@.subrange(0, j + 1));
        }
        j = j + 1;
    }
    proof {
        assert(s@.subrange(0, s@.len() as int) =~= s@);
    }
    let mut k: usize = offset;
    while k < v.len()
        invariant
            offset <= k <= v@.len(),
            out@ == v@.subrange(0, offset as int) + s@ + v@.subrange(offset as int, k as int),
        decreases v@.len() - k,
    {
        out.push(v[k]);
        proof {
            assert(out@ =~= v@.subrange(0, offset as int) + s@ + v@.subrange(
                offset as int,
                k + 1,
            ));
        }
        k = k + 1;
    }
    *v = out;
}

} // verus!
