//! Byte matching: the longest common prefix of two positions, and the
//! executable routines that compare and extend matches.
use vstd::prelude::*;

verus! {

/// Length of the longest common prefix of `a[p..]` and `b[q..]`.
pub open spec fn lcp(a: Seq<u8>, p: int, b: Seq<u8>, q: int) -> nat
    decreases a.len() - p,
{
    if 0 <= p < a.len() && 0 <= q < b.len() && a[p] == b[q] {
        1 + lcp(a, p + 1, b, q + 1)
    } else {
        0
    }
}

/// `a[p..p + d]` and `b[q..q + d]` exist and are equal.
pub open spec fn agree(a: Seq<u8>, p: int, b: Seq<u8>, q: int, d: int) -> bool {
    &&& 0 <= p
    &&& 0 <= q
    &&& 0 <= d
    &&& p + d <= a.len()
    &&& q + d <= b.len()
    &&& forall|t: int| 0 <= t < d ==> #[trigger] a[p + t] == b[q + t]
}

/// The common prefix is as long as `lcp` says, and no longer.
pub proof fn lemma_lcp_agree(a: Seq<u8>, p: int, b: Seq<u8>, q: int)
    requires
        0 <= p <= a.len(),
        0 <= q <= b.len(),
    ensures
        agree(a, p, b, q, lcp(a, p, b, q) as int),
        a.subrange(p, p + lcp(a, p, b, q)) == b.subrange(q, q + lcp(a, p, b, q)),
        p + lcp(a, p, b, q) < a.len() && q + lcp(a, p, b, q) < b.len() ==> a[p + lcp(a, p, b, q)]
            != b[q + lcp(a, p, b, q)],
    decreases a.len() - p,
{
    let d = lcp(a, p, b, q) as int;
    if p < a.len() && q < b.len() && a[p] == b[q] {
        lemma_lcp_agree(a, p + 1, b, q + 1);
        assert forall|t: int| 0 <= t < d implies #[trigger] a[p + t] == b[q + t] by {
            if t > 0 {
                assert(a[(p + 1) + (t - 1)] == b[(q + 1) + (t - 1)]);
            }
        }
    }
    assert(a.subrange(p, p + d) =~= b.subrange(q, q + d)) by {
        assert forall|t: int| 0 <= t < d implies #[trigger] a.subrange(p, p + d)[t] == b.subrange(
            q,
            q + d,
        )[t] by {
            assert(a[p + t] == b[q + t]);
        }
    }
}

/// A common prefix of length `d` is part of the longest one.
pub proof fn lemma_lcp_skip(a: Seq<u8>, p: int, b: Seq<u8>, q: int, d: int)
    requires
        agree(a, p, b, q, d),
    ensures
        lcp(a, p, b, q) == d + lcp(a, p + d, b, q + d),
    decreases d,
{
    if d > 0 {
        assert(a[p + 0] == b[q + 0]);
        assert forall|t: int| 0 <= t < d - 1 implies #[trigger] a[(p + 1) + t] == b[(q + 1)
            + t] by {
            assert(a[p + (t + 1)] == b[q + (t + 1)]);
        }
        lemma_lcp_skip(a, p + 1, b, q + 1, d - 1);
    }
}

/// A common prefix of at least `d` bytes is one of exactly `d` bytes, extended.
pub proof fn lemma_lcp_at_least(a: Seq<u8>, p: int, b: Seq<u8>, q: int, d: int)
    requires
        0 <= p,
        0 <= q,
        0 <= d,
        p + d <= a.len(),
        q + d <= b.len(),
    ensures
        lcp(a, p, b, q) >= d <==> agree(a, p, b, q, d),
{
    lemma_lcp_agree(a, p, b, q);
    if agree(a, p, b, q, d) {
        lemma_lcp_skip(a, p, b, q, d);
    }
    if lcp(a, p, b, q) >= d {
        assert forall|t: int| 0 <= t < d implies #[trigger] a[p + t] == b[q + t] by {
            assert(a[p + t] == b[q + t]);
        }
    }
}

/// Whether `a[p..p + d]` and `b[q..q + d]` are equal.
pub fn bytes_agree(a: &[u8], p: usize, b: &[u8], q: usize, d: usize) -> (r: bool)
    requires
        p + d <= a.len(),
        q + d <= b.len(),
    ensures
        r == agree(a@, p as int, b@, q as int, d as int),
{
    let mut t: usize = 0;
    while t < d
        invariant
            t <= d,
            p + d <= a.len(),
            q + d <= b.len(),
            forall|u: int| 0 <= u < t ==> #[trigger] a@[p + u] == b@[q + u],
        decreases d - t,
    {
        if a[p + t] != b[q + t] {
            return false;
        }
        t = t + 1;
    }
    true
}

/// Extends a match of `a[p..]` against `b[q..]` byte by byte, `from` bytes
/// being known to agree already, and returns the length of the longest common prefix.
pub fn extend_match(a: &[u8], p: usize, b: &[u8], q: usize, from: usize) -> (r: usize)
    requires
        agree(a@, p as int, b@, q as int, from as int),
    ensures
        r == lcp(a@, p as int, b@, q as int),
{
    proof {
        lemma_lcp_skip(a@, p as int, b@, q as int, from as int);
    }
    let mut len = from;
    while p + len < a.len() && q + len < b.len() && a[p + len] == b[q + len]
        invariant
            p + len <= a.len(),
            q + len <= b.len(),
            lcp(a@, p as int, b@, q as int) == len + lcp(a@, p + len, b@, q + len),
        decreases a.len() - len,
    {
        len = len + 1;
    }
    len
}

/// The longest common prefix of `a[p..]` and `b[q..]`, given that its first
/// `from` bytes agree and that it is probably `upto` bytes long: when the bytes
/// confirm `upto` it is returned, otherwise the match is extended byte by byte.
pub fn confirm_extent(a: &[u8], p: usize, b: &[u8], q: usize, from: usize, upto: usize) -> (r:
    usize)
    requires
        agree(a@, p as int, b@, q as int, from as int),
        from <= upto,
        p + upto <= a.len(),
        q + upto <= b.len(),
    ensures
        r == lcp(a@, p as int, b@, q as int),
        r >= from,
{
    proof {
        lemma_lcp_skip(a@, p as int, b@, q as int, from as int);
    }
    if bytes_agree(a, p + from, b, q + from, upto - from) && (p + upto == a.len() || q + upto
        == b.len() || a[p + upto] != b[q + upto]) {
        proof {
            assert forall|t: int| 0 <= t < upto implies #[trigger] a@[p + t] == b@[q + t] by {
                if t >= from {
                    assert(a@[(p + from) + (t - from)] == b@[(q + from) + (t - from)]);
                }
            }
            lemma_lcp_skip(a@, p as int, b@, q as int, upto as int);
        }
        upto
    } else {
        extend_match(a, p, b, q, from)
    }
}

} // verus!
