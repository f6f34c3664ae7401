//! The k-mer index shared by the hashed matchers: a map from the rolling hash
//! of every length-`k` window of the messages indexed so far to the list of
//! `(message_idx, start)` where such a window occurs, in insertion order.
use crate::encoding::{bytes_view, eligible};
use crate::matching::{lcp, lemma_lcp_agree};
use crate::rolling::{
    is_prefix_table, lemma_equal_windows_hash_alike, prefix_hashes, range_hash, window_hash,
};
use std::collections::HashMap;
use vstd::prelude::*;

verus! {

/// The index key of the window of length `k` at `s` in `m`.
pub open spec fn kmer_key(m: Seq<u8>, s: int, k: int) -> u64 {
    window_hash(m, s, s + k)
}

/// Number of windows of length `k` in `m`.
pub open spec fn window_count(m: Seq<u8>, k: int) -> int {
    if m.len() >= k {
        m.len() - k + 1
    } else {
        0
    }
}

/// The windows of message `j` (bytes `m`) starting before `n` whose key is
/// `key`, as `(j, start)` in increasing `start`.
pub open spec fn occurrences(m: Seq<u8>, j: int, k: int, key: u64, n: int) -> Seq<(usize, usize)>
    decreases n,
{
    if n <= 0 {
        Seq::empty()
    } else {
        let prev = occurrences(m, j, k, key, n - 1);
        if kmer_key(m, n - 1, k) == key {
            prev.push((j as usize, (n - 1) as usize))
        } else {
            prev
        }
    }
}

/// The bucket of `key` once messages `0..i` are indexed: every window of
/// those messages with that key, message by message, start by start.
pub open spec fn bucket(msgs: Seq<Seq<u8>>, k: int, i: int, key: u64) -> Seq<(usize, usize)>
    decreases i,
{
    if i <= 0 {
        Seq::empty()
    } else {
        bucket(msgs, k, i - 1, key) + occurrences(
            msgs[i - 1],
            i - 1,
            k,
            key,
            window_count(msgs[i - 1], k),
        )
    }
}

/// The bucket of `key` once messages `0..j` and the windows of message `j`
/// starting before `n` are indexed.
pub open spec fn partial_bucket(msgs: Seq<Seq<u8>>, k: int, j: int, n: int, key: u64) -> Seq<
    (usize, usize),
> {
    bucket(msgs, k, j, key) + occurrences(msgs[j], j, k, key, n)
}

/// `table` holds exactly the non-empty partial buckets.
pub open spec fn index_holds(
    table: Map<u64, Vec<(usize, usize)>>,
    msgs: Seq<Seq<u8>>,
    k: int,
    j: int,
    n: int,
) -> bool {
    forall|key: u64|
        #![trigger table.contains_key(key)]
        #![trigger partial_bucket(msgs, k, j, n, key)]
        {
            &&& table.contains_key(key) <==> partial_bucket(msgs, k, j, n, key).len() > 0
            &&& table.contains_key(key) ==> table[key]@ == partial_bucket(msgs, k, j, n, key)
        }
}

/// Every message is short enough that its offsets are `usize`.
pub open spec fn lengths_fit(msgs: Seq<Seq<u8>>) -> bool {
    forall|j: int| 0 <= j < msgs.len() ==> #[trigger] msgs[j].len() <= usize::MAX
}

pub proof fn lemma_lengths_fit(messages: &Vec<Vec<u8>>)
    ensures
        lengths_fit(bytes_view(messages@)),
        bytes_view(messages@).len() <= usize::MAX,
{
    assert(messages@.len() == messages.len());
    assert forall|j: int| 0 <= j < bytes_view(messages@).len() implies #[trigger] bytes_view(
        messages@,
    )[j].len() <= usize::MAX by {
        assert(messages@[j]@.len() == messages@[j].len());
    }
}

/// The empty table is the index of no message.
pub proof fn lemma_index_empty(msgs: Seq<Seq<u8>>, k: int)
    ensures
        index_holds(Map::empty(), msgs, k, 0, 0),
{
    assert forall|key: u64| #[trigger] partial_bucket(msgs, k, 0, 0, key).len() == 0 by {
        assert(partial_bucket(msgs, k, 0, 0, key) =~= Seq::empty());
    }
}

/// A capacity to reserve for an index of the windows of length `k`: half
/// their number, and at least 16.
pub fn index_capacity(messages: &Vec<Vec<u8>>, k: usize) -> (r: usize)
    requires
        k >= 1,
    ensures
        r >= 16,
{
    let mut total_windows: usize = 0;
    let mut j: usize = 0;
    while j < messages.len()
        invariant
            j <= messages.len(),
            k >= 1,
        decreases messages.len() - j,
    {
        let len = messages[j].len();
        if len >= k {
            total_windows = total_windows.saturating_add(len - k + 1);
        }
        j = j + 1;
    }
    if total_windows / 2 > 16 {
        total_windows / 2
    } else {
        16
    }
}

/// Looking a key up in a table built from messages `0..i` gives its bucket.
pub proof fn lemma_index_lookup(
    table: Map<u64, Vec<(usize, usize)>>,
    msgs: Seq<Seq<u8>>,
    k: int,
    i: int,
    key: u64,
)
    requires
        index_holds(table, msgs, k, i, 0),
    ensures
        table.contains_key(key) <==> bucket(msgs, k, i, key).len() > 0,
        table.contains_key(key) ==> table[key]@ == bucket(msgs, k, i, key),
{
    assert(partial_bucket(msgs, k, i, 0, key) =~= bucket(msgs, k, i, key));
}

/// The candidates a hashed matcher examines at offset `c` of message `i`: the
/// first `CANDIDATE_CAP` entries of the bucket of the window at `c`, or none
/// where fewer than `k` bytes remain.
pub open spec fn examined(msgs: Seq<Seq<u8>>, k: int, i: int, c: int) -> Seq<(usize, usize)> {
    if c + k <= msgs[i].len() {
        let b = bucket(msgs, k, i, kmer_key(msgs[i], c, k));
        if b.len() <= CANDIDATE_CAP {
            b
        } else {
            b.take(CANDIDATE_CAP as int)
        }
    } else {
        Seq::empty()
    }
}

/// Most bucket entries examined per lookup.
pub const CANDIDATE_CAP: usize = 64;

/// Candidate `e` may give a reference at offset `c` of message `i`: its
/// message is eligible and it matches at least `k` bytes.
pub open spec fn usable(
    msgs: Seq<Seq<u8>>,
    i: int,
    c: int,
    k: int,
    lookback: Option<usize>,
    e: (usize, usize),
) -> bool {
    &&& eligible(i, e.0 as int, lookback)
    &&& lcp(msgs[i], c, msgs[e.0 as int], e.1 as int) >= k
}

/// The window of length `k` at `p` in message `i` has a key that the index
/// built from messages `0..i` holds.
pub open spec fn key_seen(msgs: Seq<Seq<u8>>, k: int, i: int, p: int) -> bool {
    &&& p + k <= msgs[i].len()
    &&& bucket(msgs, k, i, kmer_key(msgs[i], p, k)).len() > 0
}

/// A literal of `len` bytes at `c` runs up to the first later offset whose
/// window key the index holds, or to the end of the message.
pub open spec fn literal_run(msgs: Seq<Seq<u8>>, k: int, i: int, c: int, len: int) -> bool {
    &&& forall|p: int| c < p < c + len ==> !#[trigger] key_seen(msgs, k, i, p)
    &&& (c + len == msgs[i].len() || key_seen(msgs, k, i, c + len))
}

/// An index entry names a window of an earlier message whose key it is filed under.
pub open spec fn valid_entry(
    msgs: Seq<Seq<u8>>,
    k: int,
    i: int,
    key: u64,
    e: (usize, usize),
) -> bool {
    &&& e.0 < i
    &&& e.1 + k <= msgs[e.0 as int].len()
    &&& kmer_key(msgs[e.0 as int], e.1 as int, k) == key
}

proof fn lemma_occurrences_entries(m: Seq<u8>, j: int, k: int, key: u64, n: int)
    requires
        0 <= j,
        j < usize::MAX,
        0 <= n <= window_count(m, k),
        n <= usize::MAX,
    ensures
        forall|t: int|
            0 <= t < occurrences(m, j, k, key, n).len() ==> {
                let e = #[trigger] occurrences(m, j, k, key, n)[t];
                &&& e.0 == j
                &&& e.1 < n
                &&& e.1 + k <= m.len()
                &&& kmer_key(m, e.1 as int, k) == key
            },
    decreases n,
{
    if n > 0 {
        lemma_occurrences_entries(m, j, k, key, n - 1);
        let prev = occurrences(m, j, k, key, n - 1);
        if kmer_key(m, n - 1, k) == key {
            assert forall|t: int| 0 <= t < prev.len() implies #[trigger] prev.push(
                ((j as usize), ((n - 1) as usize)),
            )[t] == prev[t] by {}
        }
    }
}

/// Every entry of a bucket is a valid entry.
pub proof fn lemma_bucket_entries(msgs: Seq<Seq<u8>>, k: int, i: int, key: u64)
    requires
        0 <= i <= msgs.len(),
        i <= usize::MAX,
        k >= 1,
        lengths_fit(msgs),
    ensures
        forall|t: int|
            0 <= t < bucket(msgs, k, i, key).len() ==> valid_entry(
                msgs,
                k,
                i,
                key,
                #[trigger] bucket(msgs, k, i, key)[t],
            ),
    decreases i,
{
    if i > 0 {
        lemma_bucket_entries(msgs, k, i - 1, key);
        let m = msgs[i - 1];
        let wc = window_count(m, k);
        lemma_occurrences_entries(m, i - 1, k, key, wc);
        let a = bucket(msgs, k, i - 1, key);
        let b = occurrences(m, i - 1, k, key, wc);
        assert forall|t: int| 0 <= t < (a + b).len() implies valid_entry(
            msgs,
            k,
            i,
            key,
            #[trigger] (a + b)[t],
        ) by {
            if t < a.len() {
                assert((a + b)[t] == a[t]);
            } else {
                assert((a + b)[t] == b[t - a.len()]);
            }
        }
    }
}

/// Files every window of message `j` under its key, after the windows of the
/// messages before it.
pub fn insert_kmers_into_table(
    table: &mut HashMap<u64, Vec<(usize, usize)>>,
    messages: &Vec<Vec<u8>>,
    prefixes: &Vec<(Vec<u64>, Vec<u64>)>,
    j: usize,
    k: usize,
)
    requires
        j < messages.len(),
        j < prefixes.len(),
        is_prefix_table(prefixes[j as int], messages[j as int]@),
        k >= 1,
        index_holds(old(table)@, bytes_view(messages@), k as int, j as int, 0),
    ensures
        index_holds(final(table)@, bytes_view(messages@), k as int, j + 1, 0),
{
    let ghost msgs = bytes_view(messages@);
    let len = messages[j].len();
    assert(msgs[j as int] == messages[j as int]@);
    let mut start: usize = 0;
    if len >= k {
        let last = len - k;
        while start <= last
            invariant
                msgs == bytes_view(messages@),
                msgs[j as int] == messages[j as int]@,
                j < messages.len(),
                j < prefixes.len(),
                is_prefix_table(prefixes[j as int], messages[j as int]@),
                len == messages[j as int].len(),
                k >= 1,
                last == len - k,
                start <= last + 1,
                index_holds(table@, msgs, k as int, j as int, start as int),
            decreases last + 1 - start,
        {
            let h = range_hash(&prefixes[j], start, start + k);
            assert(h == kmer_key(msgs[j as int], start as int, k as int));
            let ghost before = table@;
            let mut entries = match table.remove(&h) {
                Some(v) => v,
                None => Vec::new(),
            };
            entries.push((j, start));
            table.insert(h, entries);
            proof {
                let x = (j, start);
                assert forall|key: u64|
                    #![trigger table@.contains_key(key)]
                    #![trigger partial_bucket(msgs, k as int, j as int, start + 1, key)]
                    {
                        &&& table@.contains_key(key) <==> partial_bucket(
                            msgs,
                            k as int,
                            j as int,
                            start + 1,
                            key,
                        ).len() > 0
                        &&& table@.contains_key(key) ==> table@[key]@ == partial_bucket(
                            msgs,
                            k as int,
                            j as int,
                            start + 1,
                            key,
                        )
                    } by {
                    let old_b = partial_bucket(msgs, k as int, j as int, start as int, key);
                    assert(before.contains_key(key) <==> old_b.len() > 0);
                    if key == h {
                        assert(partial_bucket(
                            msgs,
                            k as int,
                            j as int,
                            start + 1,
                            key,
                        ) =~= old_b.push(x));
                    } else {
                        assert(partial_bucket(msgs, k as int, j as int, start + 1, key) == old_b);
                    }
                }
            }
            start = start + 1;
        }
    }
    proof {
        assert(start as int == window_count(msgs[j as int], k as int));
        assert forall|key: u64| #[trigger]
            partial_bucket(msgs, k as int, j + 1, 0, key) == partial_bucket(
                msgs,
                k as int,
                j as int,
                start as int,
                key,
            ) by {
            assert(partial_bucket(
                msgs,
                k as int,
                j + 1,
                0,
                key,
            ) =~= bucket(msgs, k as int, j + 1, key));
        }
    }
}

/// `prefixes` holds the prefix-hash table of every message.
pub open spec fn tables_for(prefixes: Seq<(Vec<u64>, Vec<u64>)>, messages: Seq<Vec<u8>>) -> bool {
    &&& prefixes.len() == messages.len()
    &&& forall|j: int| 0 <= j < prefixes.len() ==> is_prefix_table(
        #[trigger] prefixes[j],
        messages[j]@,
    )
}

/// Prefix-hash tables of every message.
pub fn prefix_tables(messages: &Vec<Vec<u8>>) -> (r: Vec<(Vec<u64>, Vec<u64>)>)
    ensures
        tables_for(r@, messages@),
{
    let mut r: Vec<(Vec<u64>, Vec<u64>)> = Vec::with_capacity(messages.len());
    let mut j: usize = 0;
    while j < messages.len()
        invariant
            j <= messages.len(),
            r.len() == j,
            forall|j2: int| 0 <= j2 < j ==> is_prefix_table(#[trigger] r@[j2], messages@[j2]@),
        decreases messages.len() - j,
    {
        r.push(prefix_hashes(messages[j].as_slice()));
        j = j + 1;
    }
    r
}

/// Whether message `j` may be referenced from message `i` under `lookback`.
pub fn within_lookback(i: usize, j: usize, lookback: Option<usize>) -> (r: bool)
    requires
        j < i,
    ensures
        r == eligible(i as int, j as int, lookback),
{
    match lookback {
        Some(lb) => i - j <= lb,
        None => true,
    }
}

/// The index entries examined at offset `cursor` of message `i`: the first
/// `CANDIDATE_CAP` entries of the bucket of its window.
pub fn lookup_candidates(
    messages: &Vec<Vec<u8>>,
    prefixes: &Vec<(Vec<u64>, Vec<u64>)>,
    table: &HashMap<u64, Vec<(usize, usize)>>,
    i: usize,
    cursor: usize,
    k: usize,
) -> (r: Vec<(usize, usize)>)
    requires
        i < messages.len(),
        prefixes.len() == messages.len(),
        is_prefix_table(prefixes[i as int], messages[i as int]@),
        cursor < messages[i as int].len(),
        k >= 1,
        index_holds(table@, bytes_view(messages@), k as int, i as int, 0),
    ensures
        r@ == examined(bytes_view(messages@), k as int, i as int, cursor as int),
{
    let ghost msgs = bytes_view(messages@);
    assert(msgs[i as int] == messages[i as int]@);
    let mut r: Vec<(usize, usize)> = Vec::new();
    if k <= messages[i].len() - cursor {
        let key = range_hash(&prefixes[i], cursor, cursor + k);
        proof {
            lemma_index_lookup(table@, msgs, k as int, i as int, key);
        }
        match table.get(&key) {
            Some(cands) => {
                let ghost b = cands@;
                let mut t: usize = 0;
                while t < cands.len() && t < CANDIDATE_CAP
                    invariant
                        b == cands@,
                        t <= cands.len(),
                        t <= CANDIDATE_CAP,
                        r@ == b.take(t as int),
                    decreases cands.len() - t,
                {
                    r.push(cands[t]);
                    t = t + 1;
                    assert(r@ =~= b.take(t as int));
                }
                assert(b.len() <= CANDIDATE_CAP ==> b.take(b.len() as int) =~= b);
            },
            None => {},
        }
    }
    r
}

/// Whether the window of length `k` at `p` in message `i` has an indexed key.
pub fn window_indexed(
    messages: &Vec<Vec<u8>>,
    prefixes: &Vec<(Vec<u64>, Vec<u64>)>,
    table: &HashMap<u64, Vec<(usize, usize)>>,
    i: usize,
    p: usize,
    k: usize,
) -> (r: bool)
    requires
        i < messages.len(),
        prefixes.len() == messages.len(),
        is_prefix_table(prefixes[i as int], messages[i as int]@),
        p < messages[i as int].len(),
        index_holds(table@, bytes_view(messages@), k as int, i as int, 0),
    ensures
        r == key_seen(bytes_view(messages@), k as int, i as int, p as int),
{
    let ghost msgs = bytes_view(messages@);
    assert(msgs[i as int] == messages[i as int]@);
    if k <= messages[i].len() - p {
        let key = range_hash(&prefixes[i], p, p + k);
        proof {
            lemma_index_lookup(table@, msgs, k as int, i as int, key);
        }
        table.contains_key(&key)
    } else {
        false
    }
}

/// End of the literal that starts at `cursor` of message `i`: the first later
/// offset whose window key is indexed, or the end of the message.
pub fn literal_end_from(
    messages: &Vec<Vec<u8>>,
    prefixes: &Vec<(Vec<u64>, Vec<u64>)>,
    table: &HashMap<u64, Vec<(usize, usize)>>,
    i: usize,
    cursor: usize,
    k: usize,
) -> (e: usize)
    requires
        i < messages.len(),
        prefixes.len() == messages.len(),
        is_prefix_table(prefixes[i as int], messages[i as int]@),
        cursor < messages[i as int].len(),
        index_holds(table@, bytes_view(messages@), k as int, i as int, 0),
    ensures
        cursor < e <= messages[i as int].len(),
        literal_run(bytes_view(messages@), k as int, i as int, cursor as int, e - cursor),
{
    let ghost msgs = bytes_view(messages@);
    assert(msgs[i as int] == messages[i as int]@);
    let len = messages[i].len();
    let mut literal_end = cursor + 1;
    while literal_end < len && !window_indexed(messages, prefixes, table, i, literal_end, k)
        invariant
            i < messages.len(),
            prefixes.len() == messages.len(),
            is_prefix_table(prefixes[i as int], messages[i as int]@),
            index_holds(table@, msgs, k as int, i as int, 0),
            msgs == bytes_view(messages@),
            len == msgs[i as int].len(),
            cursor < literal_end <= len,
            forall|p: int|
                cursor < p < literal_end ==> !#[trigger] key_seen(msgs, k as int, i as int, p),
        decreases len - literal_end,
    {
        literal_end = literal_end + 1;
    }
    literal_end
}

proof fn lemma_occurrences_contain(m: Seq<u8>, j: int, k: int, key: u64, n: int, s: int)
    requires
        0 <= s < n,
        kmer_key(m, s, k) == key,
    ensures
        occurrences(m, j, k, key, n).contains((j as usize, s as usize)),
    decreases n,
{
    let prev = occurrences(m, j, k, key, n - 1);
    if s < n - 1 {
        lemma_occurrences_contain(m, j, k, key, n - 1, s);
        let t = choose|t: int| 0 <= t < prev.len() && prev[t] == (j as usize, s as usize);
        if kmer_key(m, n - 1, k) == key {
            assert(prev.push((j as usize, (n - 1) as usize))[t] == prev[t]);
        }
    } else {
        assert(prev.push((j as usize, s as usize))[prev.len() as int] == (j as usize, s as usize));
    }
}

proof fn lemma_bucket_contains(msgs: Seq<Seq<u8>>, k: int, i: int, key: u64, j: int, s: int)
    requires
        0 <= j < i <= msgs.len(),
        0 <= s,
        s + k <= msgs[j].len(),
        kmer_key(msgs[j], s, k) == key,
    ensures
        bucket(msgs, k, i, key).contains((j as usize, s as usize)),
    decreases i,
{
    let a = bucket(msgs, k, i - 1, key);
    let b = occurrences(msgs[i - 1], i - 1, k, key, window_count(msgs[i - 1], k));
    if j < i - 1 {
        lemma_bucket_contains(msgs, k, i - 1, key, j, s);
        let t = choose|t: int| 0 <= t < a.len() && a[t] == (j as usize, s as usize);
        assert((a + b)[t] == a[t]);
    } else {
        lemma_occurrences_contain(msgs[j], j, k, key, window_count(msgs[j], k), s);
        let t = choose|t: int| 0 <= t < b.len() && b[t] == (j as usize, s as usize);
        assert((a + b)[a.len() + t] == b[t]);
    }
}

/// The index misses no match: where the window key at `p` in message `i` is
/// not indexed, no earlier message holds the same `k` bytes anywhere, so no
/// reference of at least `k` bytes can start at `p`.
pub proof fn lemma_unindexed_window_has_no_match(
    msgs: Seq<Seq<u8>>,
    k: int,
    i: int,
    p: int,
    j: int,
    s: int,
)
    requires
        0 <= j < i < msgs.len(),
        0 <= p,
        0 <= s,
        k >= 1,
        p + k <= msgs[i].len(),
        !key_seen(msgs, k, i, p),
    ensures
        lcp(msgs[i], p, msgs[j], s) < k,
{
    if lcp(msgs[i], p, msgs[j], s) >= k {
        lemma_lcp_agree(msgs[i], p, msgs[j], s);
        assert(msgs[i].subrange(p, p + k) =~= msgs[j].subrange(s, s + k)) by {
            assert forall|t: int| 0 <= t < k implies #[trigger] msgs[i].subrange(p, p + k)[t]
                == msgs[j].subrange(s, s + k)[t] by {
                assert(msgs[i][p + t] == msgs[j][s + t]);
            }
        }
        lemma_equal_windows_hash_alike(msgs[i], p, msgs[j], s, k);
        lemma_bucket_contains(msgs, k, i, kmer_key(msgs[i], p, k), j, s);
    }
}

} // verus!
