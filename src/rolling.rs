//! Polynomial rolling hash over bytes, with wrapping 64-bit arithmetic: a
//! table of prefix hashes and powers of the base gives the hash of any window
//! in constant time. Equal hashes do not imply equal bytes.
use vstd::arithmetic::div_mod::{
    lemma_add_mod_noop, lemma_mul_mod_noop_left, lemma_mul_mod_noop_right, lemma_small_mod,
};
use vstd::prelude::*;
use vstd::wrapping::u64_specs::{wrapping_add, wrapping_mul, wrapping_sub};

verus! {

/// The polynomial base.
pub const BASE: u64 = 257;

/// Hash of `s[0..r]`: zero for the empty prefix, then `h * BASE + byte` for
/// each further byte, all modulo 2^64.
pub open spec fn prefix_hash(s: Seq<u8>, r: int) -> u64
    decreases r,
{
    if r <= 0 {
        0
    } else {
        wrapping_add(wrapping_mul(prefix_hash(s, r - 1), BASE), s[r - 1] as u64)
    }
}

/// `BASE` to the power `n`, modulo 2^64.
pub open spec fn power(n: int) -> u64
    decreases n,
{
    if n <= 0 {
        1
    } else {
        wrapping_mul(power(n - 1), BASE)
    }
}

/// Hash of the window `s[l..r]`, computed from the prefix hashes as
/// `h[r] - h[l] * BASE^(r - l)` modulo 2^64.
pub open spec fn window_hash(s: Seq<u8>, l: int, r: int) -> u64 {
    wrapping_sub(prefix_hash(s, r), wrapping_mul(prefix_hash(s, l), power(r - l)))
}

/// `t` holds the prefix hashes and the powers for the bytes `s`.
pub open spec fn is_prefix_table(t: (Vec<u64>, Vec<u64>), s: Seq<u8>) -> bool {
    &&& t.0.len() == s.len() + 1
    &&& t.1.len() == s.len() + 1
    &&& forall|r: int| 0 <= r <= s.len() ==> #[trigger] t.0@[r] == prefix_hash(s, r)
    &&& forall|r: int| 0 <= r <= s.len() ==> #[trigger] t.1@[r] == power(r)
}

/// Prefix hashes and powers of the base for `s`.
pub fn prefix_hashes(s: &[u8]) -> (r: (Vec<u64>, Vec<u64>))
    ensures
        is_prefix_table(r, s@),
{
    let mut h: Vec<u64> = Vec::new();
    let mut p: Vec<u64> = Vec::new();
    h.push(0);
    p.push(1);
    let mut i: usize = 0;
    while i < s.len()
        invariant
            i <= s.len(),
            h.len() == i + 1,
            p.len() == i + 1,
            forall|r: int| 0 <= r <= i ==> #[trigger] h@[r] == prefix_hash(s@, r),
            forall|r: int| 0 <= r <= i ==> #[trigger] p@[r] == power(r),
        decreases s.len() - i,
    {
        let last_h = h[i];
        h.push(last_h.wrapping_mul(BASE).wrapping_add(s[i] as u64));
        let last_p = p[i];
        p.push(last_p.wrapping_mul(BASE));
        i = i + 1;
    }
    (h, p)
}

/// Hash of the window `[l, r)` of the bytes that `t` was built for.
pub fn range_hash(t: &(Vec<u64>, Vec<u64>), l: usize, r: usize) -> (out: u64)
    requires
        l <= r < t.0.len(),
        t.1.len() == t.0.len(),
    ensures
        out == wrapping_sub(t.0@[r as int], wrapping_mul(t.0@[l as int], t.1@[r - l])),
{
    t.0[r].wrapping_sub(t.0[l].wrapping_mul(t.1[r - l]))
}

/// 2^64, the modulus of the wrapping arithmetic.
pub open spec fn modulus() -> int {
    0x1_0000_0000_0000_0000
}

proof fn lemma_step(x: u64, y: u64, b: u64)
    ensures
        wrapping_add(wrapping_mul(x, y), b) as int == (x as int * y as int + b as int) % modulus(),
{
    let m = modulus();
    let a = (x as int * y as int) % m;
    assert(wrapping_mul(x, y) as int == a);
    lemma_small_mod(b as nat, m as nat);
    lemma_add_mod_noop(x as int * y as int, b as int, m);
    assert(a + b < 2 * m);
    if a + b >= m {
        lemma_small_mod((a + b - m) as nat, m as nat);
        assert((a + b) % m == (a + b - m) % m) by {
            vstd::arithmetic::div_mod::lemma_mod_sub_multiples_vanish(a + b, m);
        }
    } else {
        lemma_small_mod((a + b) as nat, m as nat);
    }
}

/// The prefix hash of `n` bytes depends on those bytes alone.
proof fn lemma_prefix_hash_agree(a: Seq<u8>, b: Seq<u8>, n: int)
    requires
        0 <= n <= a.len(),
        n <= b.len(),
        forall|t: int| 0 <= t < n ==> a[t] == b[t],
    ensures
        prefix_hash(a, n) == prefix_hash(b, n),
    decreases n,
{
    if n > 0 {
        lemma_prefix_hash_agree(a, b, n - 1);
    }
}

/// `h[r] = h[l] * BASE^(r - l) + hash(s[l..r])`, modulo 2^64.
proof fn lemma_prefix_split(s: Seq<u8>, l: int, r: int)
    requires
        0 <= l <= r <= s.len(),
    ensures
        prefix_hash(s, r) as int == (prefix_hash(s, l) as int * power(r - l) as int
            + prefix_hash(s.subrange(l, r), r - l) as int) % modulus(),
    decreases r - l,
{
    let m = modulus();
    if r == l {
        lemma_small_mod(prefix_hash(s, l) as nat, m as nat);
        assert(power(0) == 1);
    } else {
        lemma_prefix_split(s, l, r - 1);
        let t = s.subrange(l, r);
        let t0 = s.subrange(l, r - 1);
        lemma_prefix_hash_agree(t, t0, r - 1 - l);
        let pl = prefix_hash(s, l) as int;
        let q0 = power(r - 1 - l) as int;
        let w0 = prefix_hash(t0, r - 1 - l) as int;
        let c = s[r - 1] as int;
        let bb = BASE as int;
        lemma_step(prefix_hash(s, r - 1), BASE, s[r - 1] as u64);
        lemma_step(prefix_hash(t, r - 1 - l), BASE, t[r - 1 - l] as u64);
        assert(t[r - 1 - l] == s[r - 1]);
        assert(power(r - l) as int == (q0 * bb) % m);
        // h[r] = ((pl * q0 + w0) % m * B + c) % m = ((pl * q0 + w0) * B + c) % m
        lemma_mul_mod_noop_left(pl * q0 + w0, bb, m);
        lemma_add_mod_noop((pl * q0 + w0) % m * bb, c, m);
        lemma_add_mod_noop((pl * q0 + w0) * bb, c, m);
        lemma_small_mod(c as nat, m as nat);
        // pl * power(r - l) + hash(t) = pl * ((q0 * B) % m) + (w0 * B + c) % m
        lemma_mul_mod_noop_right(pl, q0 * bb, m);
        lemma_add_mod_noop(pl * (q0 * bb), w0 * bb + c, m);
        lemma_add_mod_noop(pl * ((q0 * bb) % m), (w0 * bb + c) % m, m);
        lemma_mod_of_mod(pl * ((q0 * bb) % m), m);
        lemma_mod_of_mod(w0 * bb + c, m);
        assert((pl * q0 + w0) * bb + c == pl * (q0 * bb) + (w0 * bb + c)) by (nonlinear_arith);
    }
}

proof fn lemma_mod_of_mod(x: int, m: int)
    requires
        m > 0,
    ensures
        (x % m) % m == x % m,
{
    vstd::arithmetic::div_mod::lemma_mod_twice(x, m);
}

/// The hash of a window is the hash of its bytes alone.
pub proof fn lemma_window_hash_of_bytes(s: Seq<u8>, l: int, r: int)
    requires
        0 <= l <= r <= s.len(),
    ensures
        window_hash(s, l, r) == prefix_hash(s.subrange(l, r), r - l),
{
    let m = modulus();
    lemma_prefix_split(s, l, r);
    let pr = prefix_hash(s, r) as int;
    let x = prefix_hash(s, l) as int * power(r - l) as int;
    let w = prefix_hash(s.subrange(l, r), r - l) as int;
    let y = wrapping_mul(prefix_hash(s, l), power(r - l)) as int;
    assert(y == x % m);
    // pr == (x + w) % m, and the window hash is (pr - x % m) mod 2^64
    lemma_add_mod_noop(x, w, m);
    lemma_small_mod(w as nat, m as nat);
    lemma_mod_of_mod(x, m);
    let d = pr - y;
    assert(d == (x % m + w) % m - x % m);
    if x % m + w >= m {
        vstd::arithmetic::div_mod::lemma_mod_sub_multiples_vanish(x % m + w, m);
        lemma_small_mod((x % m + w - m) as nat, m as nat);
    } else {
        lemma_small_mod((x % m + w) as nat, m as nat);
    }
}

/// Equal windows hash alike.
pub proof fn lemma_equal_windows_hash_alike(a: Seq<u8>, p: int, b: Seq<u8>, q: int, d: int)
    requires
        0 <= p,
        0 <= q,
        0 <= d,
        p + d <= a.len(),
        q + d <= b.len(),
        a.subrange(p, p + d) == b.subrange(q, q + d),
    ensures
        window_hash(a, p, p + d) == window_hash(b, q, q + d),
{
    lemma_window_hash_of_bytes(a, p, p + d);
    lemma_window_hash_of_bytes(b, q, q + d);
}

} // verus!
