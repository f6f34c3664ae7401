//! The index of the capped matcher. A window of length `k` is filed under
//! its key only the first time its `(window key, cap hash)` pair is seen, the
//! cap hash covering the `CAP_LEN` bytes from the window's start: the
//! positions of a long repeated block collapse into one representative, which
//! keeps buckets small on repetitive threads. Windows are filed one message
//! behind the cursor.
use crate::cap_table::{
    pair_contents, pair_set_insert, table_contents, table_push, CapTable, PairSet,
};
use crate::encoding::bytes_view;
use crate::index::{kmer_key, lengths_fit, window_count};
use crate::matching::{lcp, lemma_lcp_agree};
use crate::rolling::{is_prefix_table, lemma_equal_windows_hash_alike, range_hash, window_hash};
use vstd::prelude::*;

verus! {

/// Length of the cap window.
pub const CAP_LEN: usize = 64;

/// End of the cap window at `s` in `m`: `CAP_LEN` bytes on, or the end of `m`.
pub open spec fn cap_end(m: Seq<u8>, s: int) -> int {
    if m.len() - s <= CAP_LEN {
        m.len() as int
    } else {
        s + CAP_LEN
    }
}

/// Hash of the cap window at `s` in `m`.
pub open spec fn cap_key(m: Seq<u8>, s: int) -> u64 {
    window_hash(m, s, cap_end(m, s))
}

/// The `(window key, cap hash)` pair of the window at `s` in message `j`.
pub open spec fn pair_at(msgs: Seq<Seq<u8>>, k: int, j: int, s: int) -> (u64, u64) {
    (kmer_key(msgs[j], s, k), cap_key(msgs[j], s))
}

/// Window `(j2, s2)` is filed before position `(j, n)`: in an earlier message,
/// or earlier in message `j`.
pub open spec fn filed_before(
    msgs: Seq<Seq<u8>>,
    k: int,
    j2: int,
    s2: int,
    j: int,
    n: int,
) -> bool {
    ||| (0 <= j2 < j && 0 <= s2 < window_count(msgs[j2], k))
    ||| (j2 == j && 0 <= s2 < n)
}

/// The pairs of all windows filed before position `(j, n)`.
pub open spec fn pairs_before(msgs: Seq<Seq<u8>>, k: int, j: int, n: int) -> Set<(u64, u64)> {
    Set::new(
        |p: (u64, u64)|
            exists|j2: int, s2: int|
                filed_before(msgs, k, j2, s2, j, n) && #[trigger] pair_at(msgs, k, j2, s2) == p,
    )
}

/// The windows of message `j` starting before `n` that are filed under `key`:
/// those with that key whose pair no earlier window had, as
/// `(cap hash, j, start)` in increasing `start`.
pub open spec fn cap_occurrences(msgs: Seq<Seq<u8>>, k: int, j: int, key: u64, n: int) -> Seq<
    (u64, usize, usize),
>
    decreases n,
{
    if n <= 0 {
        Seq::empty()
    } else {
        let prev = cap_occurrences(msgs, k, j, key, n - 1);
        if kmer_key(msgs[j], n - 1, k) == key && !pairs_before(msgs, k, j, n - 1).contains(
            pair_at(msgs, k, j, n - 1),
        ) {
            prev.push((cap_key(msgs[j], n - 1), j as usize, (n - 1) as usize))
        } else {
            prev
        }
    }
}

/// The bucket of `key` once messages `0..i` are filed.
pub open spec fn cap_bucket(msgs: Seq<Seq<u8>>, k: int, i: int, key: u64) -> Seq<
    (u64, usize, usize),
>
    decreases i,
{
    if i <= 0 {
        Seq::empty()
    } else {
        cap_bucket(msgs, k, i - 1, key) + cap_occurrences(
            msgs,
            k,
            i - 1,
            key,
            window_count(msgs[i - 1], k),
        )
    }
}

/// The bucket of `key` once messages `0..j` and the windows of message `j`
/// starting before `n` are filed.
pub open spec fn partial_cap_bucket(msgs: Seq<Seq<u8>>, k: int, j: int, n: int, key: u64) -> Seq<
    (u64, usize, usize),
> {
    cap_bucket(msgs, k, j, key) + cap_occurrences(msgs, k, j, key, n)
}

/// The index and the pair set hold exactly what is filed before `(j, n)`.
pub open spec fn cap_index_holds(
    table: Map<u64, Seq<(u64, usize, usize)>>,
    pairs: Set<(u64, u64)>,
    msgs: Seq<Seq<u8>>,
    k: int,
    j: int,
    n: int,
) -> bool {
    &&& pairs == pairs_before(msgs, k, j, n)
    &&& forall|key: u64|
        #![trigger table.contains_key(key)]
        #![trigger partial_cap_bucket(msgs, k, j, n, key)]
        {
            &&& table.contains_key(key) <==> partial_cap_bucket(msgs, k, j, n, key).len() > 0
            &&& table.contains_key(key) ==> table[key] == partial_cap_bucket(msgs, k, j, n, key)
        }
}

proof fn lemma_pairs_step(msgs: Seq<Seq<u8>>, k: int, j: int, n: int)
    requires
        0 <= n,
    ensures
        pairs_before(
            msgs,
            k,
            j,
            n + 1,
        ) == pairs_before(msgs, k, j, n).insert(pair_at(msgs, k, j, n)),
{
    let a = pairs_before(msgs, k, j, n + 1);
    let b = pairs_before(msgs, k, j, n).insert(pair_at(msgs, k, j, n));
    assert forall|p: (u64, u64)| a.contains(p) <==> b.contains(p) by {
        if a.contains(p) {
            let (j2, s2) = choose|j2: int, s2: int|
                filed_before(msgs, k, j2, s2, j, n + 1) && #[trigger] pair_at(msgs, k, j2, s2) == p;
            if !(j2 == j && s2 == n) {
                assert(filed_before(msgs, k, j2, s2, j, n));
            }
        }
        if b.contains(p) && p != pair_at(msgs, k, j, n) {
            let (j2, s2) = choose|j2: int, s2: int|
                filed_before(msgs, k, j2, s2, j, n) && #[trigger] pair_at(msgs, k, j2, s2) == p;
            assert(filed_before(msgs, k, j2, s2, j, n + 1));
        }
        if p == pair_at(msgs, k, j, n) {
            assert(filed_before(msgs, k, j, n, j, n + 1));
        }
    }
    assert(a =~= b);
}

proof fn lemma_pairs_next_message(msgs: Seq<Seq<u8>>, k: int, j: int)
    requires
        0 <= j,
    ensures
        pairs_before(msgs, k, j, window_count(msgs[j], k)) == pairs_before(msgs, k, j + 1, 0),
{
    let a = pairs_before(msgs, k, j, window_count(msgs[j], k));
    let b = pairs_before(msgs, k, j + 1, 0);
    assert forall|p: (u64, u64)| a.contains(p) <==> b.contains(p) by {
        if a.contains(p) {
            let (j2, s2) = choose|j2: int, s2: int|
                filed_before(msgs, k, j2, s2, j, window_count(msgs[j], k)) && #[trigger] pair_at(
                    msgs,
                    k,
                    j2,
                    s2,
                ) == p;
            assert(filed_before(msgs, k, j2, s2, j + 1, 0));
        }
        if b.contains(p) {
            let (j2, s2) = choose|j2: int, s2: int|
                filed_before(msgs, k, j2, s2, j + 1, 0) && #[trigger] pair_at(msgs, k, j2, s2) == p;
            assert(filed_before(msgs, k, j2, s2, j, window_count(msgs[j], k)));
        }
    }
    assert(a =~= b);
}

pub proof fn lemma_cap_index_empty(msgs: Seq<Seq<u8>>, k: int)
    ensures
        cap_index_holds(Map::empty(), Set::empty(), msgs, k, 0, 0),
{
    assert(pairs_before(msgs, k, 0, 0) =~= Set::empty());
    assert forall|key: u64| #[trigger] partial_cap_bucket(msgs, k, 0, 0, key).len() == 0 by {
        assert(partial_cap_bucket(msgs, k, 0, 0, key) =~= Seq::empty());
    }
}

/// Files the windows of message `j`, each under its key unless its pair was
/// filed already.
pub fn insert_kmers_into_table(
    table: &mut CapTable,
    seen: &mut PairSet,
    messages: &Vec<Vec<u8>>,
    prefixes: &Vec<(Vec<u64>, Vec<u64>)>,
    j: usize,
    k: usize,
)
    requires
        j < messages.len(),
        j < prefixes.len(),
        is_prefix_table(prefixes[j as int], messages[j as int]@),
        k >= 1,
        cap_index_holds(
            table_contents(*old(table)),
            pair_contents(*old(seen)),
            bytes_view(messages@),
            k as int,
            j as int,
            0,
        ),
    ensures
        cap_index_holds(
            table_contents(*final(table)),
            pair_contents(*final(seen)),
            bytes_view(messages@),
            k as int,
            j + 1,
            0,
        ),
{
    let ghost msgs = bytes_view(messages@);
    let len = messages[j].len();
    assert(msgs[j as int] == messages[j as int]@);
    let mut start: usize = 0;
    if len >= k {
        let last = len - k;
        while start <= last
            invariant
                msgs == bytes_view(messages@),
                msgs[j as int] == messages[j as int]@,
                j < messages.len(),
                j < prefixes.len(),
                is_prefix_table(prefixes[j as int], messages[j as int]@),
                len == messages[j as int].len(),
                k >= 1,
                last == len - k,
                start <= last + 1,
                cap_index_holds(
                    table_contents(*table),
                    pair_contents(*seen),
                    msgs,
                    k as int,
                    j as int,
                    start as int,
                ),
            decreases last + 1 - start,
        {
            let h = range_hash(&prefixes[j], start, start + k);
            let cap_end = if len - start <= CAP_LEN {
                len
            } else {
                start + CAP_LEN
            };
            let cap_h = range_hash(&prefixes[j], start, cap_end);
            let ghost pair = pair_at(msgs, k as int, j as int, start as int);
            assert(h == kmer_key(msgs[j as int], start as int, k as int));
            assert(cap_h == cap_key(msgs[j as int], start as int));
            let ghost before = table_contents(*table);
            let ghost was_new = !pairs_before(
                msgs,
                k as int,
                j as int,
                start as int,
            ).contains(pair);
            proof {
                lemma_pairs_step(msgs, k as int, j as int, start as int);
            }
            if pair_set_insert(seen, (h, cap_h)) {
                table_push(table, h, (cap_h, j, start));
            }
            proof {
                let x = (cap_h, j, start);
                assert forall|key: u64|
                    #![trigger table_contents(*table).contains_key(key)]
                    #![trigger partial_cap_bucket(msgs, k as int, j as int, start + 1, key)]
                    {
                        &&& table_contents(*table).contains_key(key) <==> partial_cap_bucket(
                            msgs,
                            k as int,
                            j as int,
                            start + 1,
                            key,
                        ).len() > 0
                        &&& table_contents(*table).contains_key(key) ==> table_contents(*table)[key]
                            == partial_cap_bucket(msgs, k as int, j as int, start + 1, key)
                    } by {
                    let old_b = partial_cap_bucket(msgs, k as int, j as int, start as int, key);
                    assert(before.contains_key(key) <==> old_b.len() > 0);
                    if key == h && was_new {
                        assert(partial_cap_bucket(
                            msgs,
                            k as int,
                            j as int,
                            start + 1,
                            key,
                        ) =~= old_b.push(x));
                    } else {
                        assert(partial_cap_bucket(
                            msgs,
                            k as int,
                            j as int,
                            start + 1,
                            key,
                        ) == old_b);
                    }
                }
            }
            start = start + 1;
        }
    }
    proof {
        assert(start as int == window_count(msgs[j as int], k as int));
        lemma_pairs_next_message(msgs, k as int, j as int);
        assert forall|key: u64| #[trigger]
            partial_cap_bucket(msgs, k as int, j + 1, 0, key) == partial_cap_bucket(
                msgs,
                k as int,
                j as int,
                start as int,
                key,
            ) by {
            assert(partial_cap_bucket(
                msgs,
                k as int,
                j + 1,
                0,
                key,
            ) =~= cap_bucket(msgs, k as int, j + 1, key));
        }
    }
}

/// `table` holds exactly the non-empty buckets once messages `0..i` are filed.
pub open spec fn cap_table_is(
    table: Map<u64, Seq<(u64, usize, usize)>>,
    msgs: Seq<Seq<u8>>,
    k: int,
    i: int,
) -> bool {
    forall|key: u64|
        #![trigger table.contains_key(key)]
        {
            &&& table.contains_key(key) <==> cap_bucket(msgs, k, i, key).len() > 0
            &&& table.contains_key(key) ==> table[key] == cap_bucket(msgs, k, i, key)
        }
}

pub proof fn lemma_cap_table_is(
    table: Map<u64, Seq<(u64, usize, usize)>>,
    pairs: Set<(u64, u64)>,
    msgs: Seq<Seq<u8>>,
    k: int,
    i: int,
)
    requires
        cap_index_holds(table, pairs, msgs, k, i, 0),
    ensures
        cap_table_is(table, msgs, k, i),
{
    assert forall|key: u64| #[trigger] partial_cap_bucket(
        msgs,
        k,
        i,
        0,
        key,
    ) == cap_bucket(msgs, k, i, key) by {
        assert(partial_cap_bucket(msgs, k, i, 0, key) =~= cap_bucket(msgs, k, i, key));
    }
    assert forall|key: u64| #[trigger] table.contains_key(key) <==> cap_bucket(
        msgs,
        k,
        i,
        key,
    ).len() > 0 by {
        assert(partial_cap_bucket(msgs, k, i, 0, key) == cap_bucket(msgs, k, i, key));
    }
}

/// An entry of a bucket names a window of an earlier message filed under `key`.
pub open spec fn valid_cap_entry(
    msgs: Seq<Seq<u8>>,
    k: int,
    i: int,
    key: u64,
    e: (u64, usize, usize),
) -> bool {
    &&& e.1 < i
    &&& e.2 + k <= msgs[e.1 as int].len()
    &&& kmer_key(msgs[e.1 as int], e.2 as int, k) == key
}

proof fn lemma_cap_occurrences_entries(msgs: Seq<Seq<u8>>, k: int, j: int, key: u64, n: int)
    requires
        0 <= j < usize::MAX,
        0 <= n <= window_count(msgs[j], k),
        n <= usize::MAX,
    ensures
        forall|t: int|
            0 <= t < cap_occurrences(msgs, k, j, key, n).len() ==> {
                let e = #[trigger] cap_occurrences(msgs, k, j, key, n)[t];
                &&& e.1 == j
                &&& e.2 + k <= msgs[j].len()
                &&& kmer_key(msgs[j], e.2 as int, k) == key
            },
    decreases n,
{
    if n > 0 {
        lemma_cap_occurrences_entries(msgs, k, j, key, n - 1);
        let prev = cap_occurrences(msgs, k, j, key, n - 1);
        let x = (cap_key(msgs[j], n - 1), j as usize, (n - 1) as usize);
        assert forall|t: int| 0 <= t < prev.len() implies #[trigger] prev.push(x)[t]
            == prev[t] by {}
        assert(prev.push(x)[prev.len() as int] == x);
    }
}

/// Every entry of a bucket is valid.
pub proof fn lemma_cap_bucket_entries(msgs: Seq<Seq<u8>>, k: int, i: int, key: u64)
    requires
        0 <= i <= msgs.len(),
        i <= usize::MAX,
        k >= 1,
        lengths_fit(msgs),
    ensures
        forall|t: int|
            0 <= t < cap_bucket(msgs, k, i, key).len() ==> valid_cap_entry(
                msgs,
                k,
                i,
                key,
                #[trigger] cap_bucket(msgs, k, i, key)[t],
            ),
    decreases i,
{
    if i > 0 {
        lemma_cap_bucket_entries(msgs, k, i - 1, key);
        let wc = window_count(msgs[i - 1], k);
        lemma_cap_occurrences_entries(msgs, k, i - 1, key, wc);
        let a = cap_bucket(msgs, k, i - 1, key);
        let b = cap_occurrences(msgs, k, i - 1, key, wc);
        assert forall|t: int| 0 <= t < (a + b).len() implies valid_cap_entry(
            msgs,
            k,
            i,
            key,
            #[trigger] (a + b)[t],
        ) by {
            if t < a.len() {
                assert((a + b)[t] == a[t]);
            } else {
                assert((a + b)[t] == b[t - a.len()]);
            }
        }
    }
}

/// The window of length `k` at `p` in message `i` has a key the index holds.
pub open spec fn cap_key_seen(msgs: Seq<Seq<u8>>, k: int, i: int, p: int) -> bool {
    &&& p + k <= msgs[i].len()
    &&& cap_bucket(msgs, k, i, kmer_key(msgs[i], p, k)).len() > 0
}

/// A literal of `len` bytes at `c` runs up to the first later offset whose
/// window key the index holds, or to the end of the message.
pub open spec fn cap_literal_run(msgs: Seq<Seq<u8>>, k: int, i: int, c: int, len: int) -> bool {
    &&& forall|p: int| c < p < c + len ==> !#[trigger] cap_key_seen(msgs, k, i, p)
    &&& (c + len == msgs[i].len() || cap_key_seen(msgs, k, i, c + len))
}

/// Among the windows filed up to `(j, s)`, the first with the pair of `(j, s)`:
/// no window before it has that pair.
proof fn lemma_first_with_pair(msgs: Seq<Seq<u8>>, k: int, j: int, s: int) -> (r: (int, int))
    requires
        0 <= j,
        0 <= s,
    ensures
        pair_at(msgs, k, r.0, r.1) == pair_at(msgs, k, j, s),
        0 <= r.0 <= j,
        0 <= r.1,
        r.0 == j ==> r.1 <= s,
        r.0 < j ==> r.1 < window_count(msgs[r.0], k),
        !pairs_before(msgs, k, r.0, r.1).contains(pair_at(msgs, k, j, s)),
    decreases j, s,
{
    let p = pair_at(msgs, k, j, s);
    if pairs_before(msgs, k, j, s).contains(p) {
        let (j2, s2) = choose|j2: int, s2: int|
            filed_before(msgs, k, j2, s2, j, s) && #[trigger] pair_at(msgs, k, j2, s2) == p;
        let r = lemma_first_with_pair(msgs, k, j2, s2);
        r
    } else {
        (j, s)
    }
}

proof fn lemma_cap_occurrences_contain(msgs: Seq<Seq<u8>>, k: int, j: int, key: u64, n: int, s: int)
    requires
        0 <= s < n,
        kmer_key(msgs[j], s, k) == key,
        !pairs_before(msgs, k, j, s).contains(pair_at(msgs, k, j, s)),
    ensures
        exists|t: int|
            0 <= t < cap_occurrences(msgs, k, j, key, n).len() && (#[trigger] cap_occurrences(
                msgs,
                k,
                j,
                key,
                n,
            )[t]).2 == s as usize,
    decreases n,
{
    let prev = cap_occurrences(msgs, k, j, key, n - 1);
    if s < n - 1 {
        lemma_cap_occurrences_contain(msgs, k, j, key, n - 1, s);
        let t = choose|t: int| 0 <= t < prev.len() && (#[trigger] prev[t]).2 == s as usize;
        let cur = cap_occurrences(msgs, k, j, key, n);
        assert(cur[t] == prev[t]);
    } else {
        let cur = cap_occurrences(msgs, k, j, key, n);
        assert(cur[prev.len() as int].2 == s as usize);
    }
}

proof fn lemma_cap_bucket_nonempty(msgs: Seq<Seq<u8>>, k: int, i: int, key: u64, j: int, s: int)
    requires
        0 <= j < i,
        0 <= s < window_count(msgs[j], k),
        kmer_key(msgs[j], s, k) == key,
        !pairs_before(msgs, k, j, s).contains(pair_at(msgs, k, j, s)),
    ensures
        cap_bucket(msgs, k, i, key).len() > 0,
    decreases i,
{
    if j < i - 1 {
        lemma_cap_bucket_nonempty(msgs, k, i - 1, key, j, s);
    } else {
        lemma_cap_occurrences_contain(msgs, k, j, key, window_count(msgs[j], k), s);
    }
}

/// The capped index misses no match either: filing a window only when its
/// pair is new still files every window key that occurs. So where the window
/// key at `p` in message `i` is not indexed, no earlier message holds the same
/// `k` bytes, and no reference of at least `k` bytes can start at `p`.
pub proof fn lemma_unfiled_window_has_no_match(
    msgs: Seq<Seq<u8>>,
    k: int,
    i: int,
    p: int,
    j: int,
    s: int,
)
    requires
        0 <= j < i < msgs.len(),
        0 <= p,
        0 <= s,
        k >= 1,
        p + k <= msgs[i].len(),
        !cap_key_seen(msgs, k, i, p),
    ensures
        lcp(msgs[i], p, msgs[j], s) < k,
{
    if lcp(msgs[i], p, msgs[j], s) >= k {
        lemma_lcp_agree(msgs[i], p, msgs[j], s);
        assert(msgs[i].subrange(p, p + k) =~= msgs[j].subrange(s, s + k)) by {
            assert forall|t: int| 0 <= t < k implies #[trigger] msgs[i].subrange(p, p + k)[t]
                == msgs[j].subrange(s, s + k)[t] by {
                assert(msgs[i][p + t] == msgs[j][s + t]);
            }
        }
        lemma_equal_windows_hash_alike(msgs[i], p, msgs[j], s, k);
        let key = kmer_key(msgs[i], p, k);
        let (j1, s1) = lemma_first_with_pair(msgs, k, j, s);
        lemma_cap_bucket_nonempty(msgs, k, i, key, j1, s1);
    }
}

} // verus!
