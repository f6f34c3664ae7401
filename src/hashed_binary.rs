//! The binary-extension matcher: the same index and candidates as the
//! incremental hashed matcher, but each candidate is measured by bisection on
//! window-hash equality instead of a byte-by-byte scan. The winner is then
//! confirmed and extended byte by byte, so a hash collision never makes a
//! reference name the wrong bytes.
use crate::copy_forward::CopyForward;
use crate::encoding::{
    bytes_of, bytes_view, copy_segments, encodes, encodes_prefix, fits_at, in_bounds,
    lemma_encodes_complete, lemma_encodes_push, lemma_offset_push, offset, segments_view,
    valid_encoding, views, GreedySubstringConfig, Segment, SegmentView,
};
use crate::matching::{bytes_agree, confirm_extent, lcp, lemma_lcp_agree, lemma_lcp_at_least};
use crate::render::{render_segments, render_segments_marked};
use crate::greedy::message_bytes;
use crate::hashed::some_usable;
use crate::index::{
    bucket, examined, index_capacity, index_holds, insert_kmers_into_table, kmer_key,
    lemma_bucket_entries, lemma_index_empty, lemma_lengths_fit, literal_end_from, literal_run,
    lookup_candidates, prefix_tables, tables_for, usable, valid_entry, within_lookback,
};
use crate::rolling::{is_prefix_table, lemma_equal_windows_hash_alike, range_hash, window_hash};
use std::collections::HashMap;
use vstd::prelude::*;
use vstd::slice::slice_to_vec;

verus! {

/// The length that bisection on window-hash equality settles on in
/// `[lo, hi]`: at each step the upper middle `mid` is kept as the new lower
/// bound when the windows of length `mid` at `p` in `a` and at `q` in `b` hash
/// alike, and `mid - 1` becomes the upper bound otherwise.
#[verifier::opaque]
pub open spec fn probe(a: Seq<u8>, p: int, b: Seq<u8>, q: int, lo: int, hi: int) -> int
    decreases hi - lo,
{
    if lo < hi {
        let mid = lo + (hi - lo + 1) / 2;
        if window_hash(a, p, p + mid) == window_hash(b, q, q + mid) {
            probe(a, p, b, q, mid, hi)
        } else {
            probe(a, p, b, q, lo, mid - 1)
        }
    } else {
        lo
    }
}

proof fn lemma_probe_bounds(a: Seq<u8>, p: int, b: Seq<u8>, q: int, lo: int, hi: int)
    requires
        lo <= hi,
    ensures
        lo <= probe(a, p, b, q, lo, hi) <= hi,
    decreases hi - lo,
{
    reveal(probe);
    if lo < hi {
        let mid = lo + (hi - lo + 1) / 2;
        lemma_probe_bounds(a, p, b, q, mid, hi);
        lemma_probe_bounds(a, p, b, q, lo, mid - 1);
    }
}

/// Bisection on window-hash equality never settles short of the true match:
/// started from a length that matches, it reaches at least the length of the
/// common prefix, cut at the upper bound. Equal windows always hash alike, so
/// only a hash collision can carry it further.
pub proof fn lemma_probe_reaches_match(a: Seq<u8>, p: int, b: Seq<u8>, q: int, lo: int, hi: int)
    requires
        0 <= p,
        0 <= q,
        0 <= lo <= hi,
        p + hi <= a.len(),
        q + hi <= b.len(),
        lo <= lcp(a, p, b, q),
    ensures
        probe(a, p, b, q, lo, hi) >= (if lcp(a, p, b, q) <= hi {
            lcp(a, p, b, q) as int
        } else {
            hi
        }),
    decreases hi - lo,
{
    reveal(probe);
    if lo < hi {
        let mid = lo + (hi - lo + 1) / 2;
        let l = lcp(a, p, b, q) as int;
        if window_hash(a, p, p + mid) == window_hash(b, q, q + mid) {
            if l >= mid {
                lemma_probe_reaches_match(a, p, b, q, mid, hi);
            } else {
                lemma_probe_bounds(a, p, b, q, mid, hi);
            }
        } else {
            if l >= mid {
                lemma_lcp_agree(a, p, b, q);
                assert(a.subrange(p, p + mid) =~= b.subrange(q, q + mid)) by {
                    assert forall|t: int| 0 <= t < mid implies #[trigger] a.subrange(p, p + mid)[t]
                        == b.subrange(q, q + mid)[t] by {
                        assert(a[p + t] == b[q + t]);
                    }
                }
                lemma_equal_windows_hash_alike(a, p, b, q, mid);
            }
            lemma_probe_reaches_match(a, p, b, q, lo, mid - 1);
        }
    }
}

/// The longest length that fits both at `p` in `a` and at `q` in `b`.
pub open spec fn room(a: Seq<u8>, p: int, b: Seq<u8>, q: int) -> int {
    if a.len() - p <= b.len() - q {
        a.len() - p
    } else {
        b.len() - q
    }
}

/// The bisection length of candidate `e` at offset `c` of message `i`, from `k` up.
pub open spec fn probe_len(msgs: Seq<Seq<u8>>, i: int, c: int, k: int, e: (usize, usize)) -> int {
    probe(
        msgs[i],
        c,
        msgs[e.0 as int],
        e.1 as int,
        k,
        room(msgs[i], c, msgs[e.0 as int], e.1 as int),
    )
}

/// Entry `t` of `cands` is usable, has the largest bisection length among the
/// usable entries, and a strictly larger one than every usable entry before it.
pub open spec fn first_best_probe(
    msgs: Seq<Seq<u8>>,
    i: int,
    c: int,
    k: int,
    lookback: Option<usize>,
    cands: Seq<(usize, usize)>,
    t: int,
) -> bool {
    &&& 0 <= t < cands.len()
    &&& usable(msgs, i, c, k, lookback, cands[t])
    &&& forall|u: int|
        0 <= u < cands.len() && usable(msgs, i, c, k, lookback, #[trigger] cands[u]) ==> probe_len(
            msgs,
            i,
            c,
            k,
            cands[u],
        ) <= probe_len(msgs, i, c, k, cands[t])
    &&& forall|u: int|
        0 <= u < t && usable(msgs, i, c, k, lookback, #[trigger] cands[u]) ==> probe_len(
            msgs,
            i,
            c,
            k,
            cands[u],
        ) < probe_len(msgs, i, c, k, cands[t])
}

/// The segment the binary-extension matcher emits at offset `c`: a reference
/// to the usable examined candidate with the first largest bisection length,
/// extended as far as it matches; or, when none is usable, a literal up to the
/// next offset whose window key is indexed.
pub open spec fn binary_segment(
    msgs: Seq<Seq<u8>>,
    i: int,
    c: int,
    k: int,
    lookback: Option<usize>,
    seg: SegmentView,
) -> bool {
    if some_usable(msgs, i, c, k, lookback) {
        match seg {
            SegmentView::Reference { message_idx, start, len } => exists|t: int|
                {
                    &&& first_best_probe(msgs, i, c, k, lookback, examined(msgs, k, i, c), t)
                    &&& #[trigger] examined(msgs, k, i, c)[t] == (message_idx, start)
                    &&& len == lcp(msgs[i], c, msgs[message_idx as int], start as int)
                },
            SegmentView::Literal(_) => false,
        }
    } else {
        match seg {
            SegmentView::Literal(b) => literal_run(msgs, k, i, c, b.len() as int),
            SegmentView::Reference { .. } => false,
        }
    }
}

/// Every segment of `segs` is the one the binary-extension matcher emits at its offset.
pub open spec fn binary_encoding(
    msgs: Seq<Seq<u8>>,
    i: int,
    segs: Seq<SegmentView>,
    k: int,
    lookback: Option<usize>,
) -> bool {
    forall|n: int|
        0 <= n < segs.len() ==> binary_segment(
            msgs,
            i,
            offset(segs, n),
            k,
            lookback,
            #[trigger] segs[n],
        )
}

/// Appending the segment emitted at the end of an encoded prefix keeps every
/// segment the one emitted at its offset.
proof fn lemma_binary_push(
    msgs: Seq<Seq<u8>>,
    i: int,
    k: int,
    lookback: Option<usize>,
    segs: Seq<SegmentView>,
    x: SegmentView,
)
    requires
        binary_encoding(msgs, i, segs, k, lookback),
        binary_segment(msgs, i, offset(segs, segs.len() as int), k, lookback, x),
    ensures
        binary_encoding(msgs, i, segs.push(x), k, lookback),
{
    let t = segs.push(x);
    assert forall|n: int| 0 <= n < t.len() implies binary_segment(
        msgs,
        i,
        offset(t, n),
        k,
        lookback,
        #[trigger] t[n],
    ) by {
        lemma_offset_push(segs, x, n);
        if n < segs.len() {
            assert(t[n] == segs[n]);
        }
    }
}

/// Matcher that finds candidates through the same index and measures them by
/// bisection on window-hash equality.
pub struct HashedGreedyBinary {
    inner: Vec<Vec<Segment>>,
    messages: Vec<Vec<u8>>,
    pub config: GreedySubstringConfig,
}

impl HashedGreedyBinary {
    /// The usable examined candidate at offset `cursor` with the first largest
    /// bisection length: `(bisection length, message_idx, start)`.
    fn select_by_probe(
        messages: &Vec<Vec<u8>>,
        prefixes: &Vec<(Vec<u64>, Vec<u64>)>,
        table: &HashMap<u64, Vec<(usize, usize)>>,
        i: usize,
        cursor: usize,
        k: usize,
        lookback: Option<usize>,
    ) -> (r: Option<(usize, usize, usize)>)
        requires
            i < messages.len(),
            tables_for(prefixes@, messages@),
            cursor < messages[i as int].len(),
            k >= 1,
            index_holds(table@, bytes_view(messages@), k as int, i as int, 0),
        ensures
            r is None <==> !some_usable(
                bytes_view(messages@),
                i as int,
                cursor as int,
                k as int,
                lookback,
            ),
            r matches Some((len, j, s)) ==> exists|t: int|
                {
                    &&& first_best_probe(
                        bytes_view(messages@),
                        i as int,
                        cursor as int,
                        k as int,
                        lookback,
                        examined(bytes_view(messages@), k as int, i as int, cursor as int),
                        t,
                    )
                    &&& #[trigger] examined(
                        bytes_view(messages@),
                        k as int,
                        i as int,
                        cursor as int,
                    )[t]
                        == (j, s)
                    &&& len == probe_len(
                        bytes_view(messages@),
                        i as int,
                        cursor as int,
                        k as int,
                        (j, s),
                    )
                    &&& k <= len <= room(
                        bytes_view(messages@)[i as int],
                        cursor as int,
                        bytes_view(messages@)[j as int],
                        s as int,
                    )
                    &&& valid_entry(
                        bytes_view(messages@),
                        k as int,
                        i as int,
                        kmer_key(bytes_view(messages@)[i as int], cursor as int, k as int),
                        (j, s),
                    )
                },
    {
        let ghost msgs = bytes_view(messages@);
        let ghost ex = examined(msgs, k as int, i as int, cursor as int);
        let msg = messages[i].as_slice();
        assert(msgs[i as int] == msg@);
        let cands = lookup_candidates(messages, prefixes, table, i, cursor, k);
        proof {
            lemma_lengths_fit(messages);
            lemma_bucket_entries(
                msgs,
                k as int,
                i as int,
                kmer_key(msgs[i as int], cursor as int, k as int),
            );
            let bk = bucket(
                msgs,
                k as int,
                i as int,
                kmer_key(msgs[i as int], cursor as int, k as int),
            );
            assert forall|u: int| 0 <= u < ex.len() implies valid_entry(
                msgs,
                k as int,
                i as int,
                kmer_key(msgs[i as int], cursor as int, k as int),
                #[trigger] ex[u],
            ) by {
                assert(ex[u] == bk[u]);
            }
        }
        let mut best: Option<(usize, usize, usize)> = None;
        let ghost mut bt: int = 0;
        let mut t: usize = 0;
        while t < cands.len()
            invariant
                msgs == bytes_view(messages@),
                ex == examined(msgs, k as int, i as int, cursor as int),
                msg@ == msgs[i as int],
                i < messages.len(),
                tables_for(prefixes@, messages@),
                cursor < msg@.len(),
                k >= 1,
                t <= ex.len(),
                ex == cands@,
                forall|u: int| 0 <= u < ex.len() ==> valid_entry(
                    msgs,
                    k as int,
                    i as int,
                    kmer_key(msgs[i as int], cursor as int, k as int),
                    #[trigger] ex[u],
                ),
                best is None ==> forall|u: int| 0 <= u < t ==> !usable(
                    msgs,
                    i as int,
                    cursor as int,
                    k as int,
                    lookback,
                    #[trigger] ex[u],
                ),
                best matches Some((len, bj, bs)) ==> {
                    &&& 0 <= bt < t
                    &&& ex[bt] == (bj, bs)
                    &&& usable(msgs, i as int, cursor as int, k as int, lookback, ex[bt])
                    &&& len == probe_len(msgs, i as int, cursor as int, k as int, ex[bt])
                    &&& k <= len <= room(msgs[i as int], cursor as int, msgs[bj as int], bs as int)
                    &&& forall|u: int|
                        0 <= u < t && usable(
                            msgs,
                            i as int,
                            cursor as int,
                            k as int,
                            lookback,
                            #[trigger] ex[u],
                        ) ==> probe_len(
                            msgs,
                            i as int,
                            cursor as int,
                            k as int,
                            ex[u],
                        ) <= len
                    &&& forall|u: int|
                        0 <= u < bt && usable(
                            msgs,
                            i as int,
                            cursor as int,
                            k as int,
                            lookback,
                            #[trigger] ex[u],
                        ) ==> probe_len(
                            msgs,
                            i as int,
                            cursor as int,
                            k as int,
                            ex[u],
                        ) < len
                },
            decreases cands.len() - t,
        {
            let (midx, ref_start) = cands[t];
            assert(ex[t as int] == (midx, ref_start));
            assert(valid_entry(
                msgs,
                k as int,
                i as int,
                kmer_key(msgs[i as int], cursor as int, k as int),
                ex[t as int],
            ));
            let prev = messages[midx].as_slice();
            assert(prev@ == msgs[midx as int]);
            let ok = within_lookback(i, midx, lookback) && k <= msg.len() - cursor && bytes_agree(
                msg,
                cursor,
                prev,
                ref_start,
                k,
            );
            proof {
                if k <= msg.len() - cursor {
                    lemma_lcp_at_least(
                        msgs[i as int],
                        cursor as int,
                        msgs[midx as int],
                        ref_start as int,
                        k as int,
                    );
                } else {
                    lemma_lcp_agree(
                        msgs[i as int],
                        cursor as int,
                        msgs[midx as int],
                        ref_start as int,
                    );
                }
            }
            assert(ok == usable(msgs, i as int, cursor as int, k as int, lookback, ex[t as int]));
            if ok {
                let len = Self::extend_candidate_binary(
                    &prefixes[i],
                    &prefixes[midx],
                    cursor,
                    ref_start,
                    k,
                    Ghost(msgs[i as int]),
                    Ghost(msgs[midx as int]),
                );
                let better = match best {
                    None => true,
                    Some((best_len, _, _)) => len > best_len,
                };
                if better {
                    best = Some((len, midx, ref_start));
                    proof {
                        bt = t as int;
                    }
                }
            }
            t = t + 1;
        }
        proof {
            assert(t == ex.len());
            if let Some((len, j, s)) = best {
                assert(first_best_probe(msgs, i as int, cursor as int, k as int, lookback, ex, bt));
                assert(ex[bt] == (j, s));
            } else {
                if some_usable(msgs, i as int, cursor as int, k as int, lookback) {
                    let u = choose|u: int| 0 <= u < ex.len() && usable(
                        msgs,
                        i as int,
                        cursor as int,
                        k as int,
                        lookback,
                        #[trigger] ex[u],
                    );
                    assert(false);
                }
            }
        }
        best
    }

    /// The usable examined candidate at offset `cursor` with the first largest
    /// bisection length, extended byte by byte: `(len, message_idx, start)`, or
    /// `None` when no examined candidate is usable.
    fn best_candidate(
        messages: &Vec<Vec<u8>>,
        prefixes: &Vec<(Vec<u64>, Vec<u64>)>,
        table: &HashMap<u64, Vec<(usize, usize)>>,
        i: usize,
        cursor: usize,
        k: usize,
        lookback: Option<usize>,
    ) -> (r: Option<(usize, usize, usize)>)
        requires
            i < messages.len(),
            tables_for(prefixes@, messages@),
            cursor < messages[i as int].len(),
            k >= 1,
            index_holds(table@, bytes_view(messages@), k as int, i as int, 0),
        ensures
            r is None <==> !some_usable(
                bytes_view(messages@),
                i as int,
                cursor as int,
                k as int,
                lookback,
            ),
            r matches Some((len, j, s)) ==> exists|t: int|
                {
                    &&& first_best_probe(
                        bytes_view(messages@),
                        i as int,
                        cursor as int,
                        k as int,
                        lookback,
                        examined(bytes_view(messages@), k as int, i as int, cursor as int),
                        t,
                    )
                    &&& #[trigger] examined(
                        bytes_view(messages@),
                        k as int,
                        i as int,
                        cursor as int,
                    )[t]
                        == (j, s)
                    &&& len == lcp(
                        bytes_view(messages@)[i as int],
                        cursor as int,
                        bytes_view(messages@)[j as int],
                        s as int,
                    )
                },
    {
        let ghost msgs = bytes_view(messages@);
        match Self::select_by_probe(messages, prefixes, table, i, cursor, k, lookback) {
            Some((extent, j, s)) => {
                let msg = messages[i].as_slice();
                let prev = messages[j].as_slice();
                proof {
                    assert(msg@ == msgs[i as int]);
                    assert(prev@ == msgs[j as int]);
                    lemma_lcp_at_least(
                        msgs[i as int],
                        cursor as int,
                        msgs[j as int],
                        s as int,
                        k as int,
                    );
                }
                let len = confirm_extent(msg, cursor, prev, s, k, extent);
                Some((len, j, s))
            },
            None => None,
        }
    }

    /// Bisection for the longest length, from `initial_k` up to what fits in
    /// both messages, at which the windows at `cursor` and at `ref_start` hash alike.
    pub(crate) fn extend_candidate_binary(
        pref_cur: &(Vec<u64>, Vec<u64>),
        pref_prev: &(Vec<u64>, Vec<u64>),
        cursor: usize,
        ref_start: usize,
        initial_k: usize,
        cur: Ghost<Seq<u8>>,
        prev: Ghost<Seq<u8>>,
    ) -> (r: usize)
        requires
            is_prefix_table(*pref_cur, cur@),
            is_prefix_table(*pref_prev, prev@),
            cursor + initial_k <= cur@.len(),
            ref_start + initial_k <= prev@.len(),
        ensures
            r == probe(
                cur@,
                cursor as int,
                prev@,
                ref_start as int,
                initial_k as int,
                room(cur@, cursor as int, prev@, ref_start as int),
            ),
            initial_k <= r <= room(cur@, cursor as int, prev@, ref_start as int),
    {
        let cur_room = pref_cur.0.len() - 1 - cursor;
        let prev_room = pref_prev.0.len() - 1 - ref_start;
        let max_possible = if cur_room <= prev_room {
            cur_room
        } else {
            prev_room
        };
        let ghost hi0 = room(cur@, cursor as int, prev@, ref_start as int);
        let mut low = initial_k;
        let mut high = max_possible;
        while low < high
            invariant
                is_prefix_table(*pref_cur, cur@),
                is_prefix_table(*pref_prev, prev@),
                hi0 == max_possible,
                cursor + max_possible <= cur@.len(),
                ref_start + max_possible <= prev@.len(),
                initial_k <= low <= high <= max_possible,
                probe(
                    cur@,
                    cursor as int,
                    prev@,
                    ref_start as int,
                    low as int,
                    high as int,
                ) == probe(
                    cur@,
                    cursor as int,
                    prev@,
                    ref_start as int,
                    initial_k as int,
                    hi0,
                ),
            decreases high - low,
        {
            proof {
                reveal(probe);
            }
            let mid = low + (high - low + 1) / 2;
            let h1 = range_hash(pref_cur, cursor, cursor + mid);
            let h2 = range_hash(pref_prev, ref_start, ref_start + mid);
            assert(h1 == window_hash(cur@, cursor as int, cursor + mid));
            assert(h2 == window_hash(prev@, ref_start as int, ref_start + mid));
            if h1 == h2 {
                low = mid;
            } else {
                high = mid - 1;
            }
        }
        proof {
            reveal(probe);
        }
        low
    }


    /// Encodes message `i` against the index of messages `0..i`.
    fn encode_message(
        messages: &Vec<Vec<u8>>,
        prefixes: &Vec<(Vec<u64>, Vec<u64>)>,
        table: &HashMap<u64, Vec<(usize, usize)>>,
        i: usize,
        k: usize,
        lookback: Option<usize>,
    ) -> (r: Vec<Segment>)
        requires
            i < messages.len(),
            tables_for(prefixes@, messages@),
            k >= 1,
            index_holds(table@, bytes_view(messages@), k as int, i as int, 0),
        ensures
            encodes(bytes_view(messages@), i as int, views(r@), k as int),
            binary_encoding(bytes_view(messages@), i as int, views(r@), k as int, lookback),
    {
        let ghost msgs = bytes_view(messages@);
        let msg = messages[i].as_slice();
        assert(msg@ == msgs[i as int]);
        let mut segs: Vec<Segment> = Vec::new();
        let mut cursor: usize = 0;
        while cursor < msg.len()
            invariant
                i < messages.len(),
                tables_for(prefixes@, messages@),
                k >= 1,
                index_holds(table@, msgs, k as int, i as int, 0),
                msgs == bytes_view(messages@),
                msg@ == msgs[i as int],
                cursor <= msg@.len(),
                offset(views(segs@), segs.len() as int) == cursor,
                encodes_prefix(msgs, i as int, views(segs@), k as int),
                binary_encoding(msgs, i as int, views(segs@), k as int, lookback),
            decreases msg.len() - cursor,
        {
            let ghost old_view = views(segs@);
            let seg = match Self::best_candidate(
                messages,
                prefixes,
                table,
                i,
                cursor,
                k,
                lookback,
            ) {
                Some((len, j, s)) => {
                    proof {
                        lemma_lcp_agree(msgs[i as int], cursor as int, msgs[j as int], s as int);
                    }
                    Segment::Reference { message_idx: j, start: s, len }
                },
                None => {
                    let literal_end = literal_end_from(messages, prefixes, table, i, cursor, k);
                    Segment::Literal(slice_to_vec(&msg[cursor..literal_end]))
                },
            };
            let ghost sv = seg@;
            let step = match &seg {
                Segment::Literal(b) => b.len(),
                Segment::Reference { len, .. } => *len,
            };
            proof {
                assert(fits_at(msgs, i as int, cursor as int, k as int, sv));
                assert(binary_segment(msgs, i as int, cursor as int, k as int, lookback, sv));
                lemma_encodes_push(msgs, i as int, k as int, old_view, sv);
            }
            segs.push(seg);
            proof {
                assert(views(segs@) =~= old_view.push(sv));
                lemma_binary_push(msgs, i as int, k as int, lookback, old_view, sv);
            }
            cursor = cursor + step;
        }
        proof {
            lemma_encodes_complete(msgs, i as int, k as int, views(segs@));
        }
        segs
    }

    /// Builds the encoding of `messages` under `config`, indexing the windows of
    /// length `min_match_len` of each message before the next one is encoded.
    /// Candidates from messages beyond `lookback` are passed over.
    pub fn with_config(config: &GreedySubstringConfig, messages: &[&str]) -> (r: HashedGreedyBinary)
        requires
            config.min_match_len >= 1,
        ensures
            r.wf(),
            r.messages_view() == bytes_of(messages@),
            r.min_match() == config.min_match_len,
            r.lookback() == config.lookback,
    {
        let k = config.min_match_len;
        let messages_vec = message_bytes(messages);
        let prefixes = prefix_tables(&messages_vec);
        let ghost msgs = bytes_view(messages_vec@);
        let mut table: HashMap<u64, Vec<(usize, usize)>> = HashMap::with_capacity(
            index_capacity(&messages_vec, k),
        );
        let mut inner: Vec<Vec<Segment>> = Vec::with_capacity(messages_vec.len());
        let mut i: usize = 0;
        proof {
            lemma_index_empty(msgs, k as int);
        }
        while i < messages_vec.len()
            invariant
                i <= messages_vec.len(),
                inner.len() == i,
                k == config.min_match_len,
                k >= 1,
                msgs == bytes_view(messages_vec@),
                tables_for(prefixes@, messages_vec@),
                i == 0 ==> index_holds(table@, msgs, k as int, 0, 0),
                i > 0 ==> index_holds(table@, msgs, k as int, i - 1, 0),
                forall|i2: int|
                    0 <= i2 < i ==> {
                        &&& encodes(msgs, i2, views(#[trigger] inner@[i2]@), k as int)
                        &&& binary_encoding(msgs, i2, views(inner@[i2]@), k as int, config.lookback)
                    },
            decreases messages_vec.len() - i,
        {
            if i > 0 {
                insert_kmers_into_table(&mut table, &messages_vec, &prefixes, i - 1, k);
            }
            let segs = Self::encode_message(
                &messages_vec,
                &prefixes,
                &table,
                i,
                k,
                config.lookback,
            );
            inner.push(segs);
            i = i + 1;
        }
        HashedGreedyBinary { inner, messages: messages_vec, config: *config }
    }
}

impl CopyForward for HashedGreedyBinary {
    closed spec fn messages_view(&self) -> Seq<Seq<u8>> {
        bytes_view(self.messages@)
    }

    closed spec fn encoding_view(&self) -> Seq<Seq<SegmentView>> {
        segments_view(self.inner@)
    }

    closed spec fn min_match(&self) -> int {
        self.config.min_match_len as int
    }

    closed spec fn lookback(&self) -> Option<usize> {
        self.config.lookback
    }

    /// The encoding of every message is the one the binary-extension matcher builds.
    open spec fn wf(&self) -> bool {
        &&& self.min_match() >= 1
        &&& valid_encoding(self.messages_view(), self.encoding_view(), self.min_match())
        &&& forall|i: int|
            0 <= i < self.messages_view().len() ==> binary_encoding(
                self.messages_view(),
                i,
                #[trigger] self.encoding_view()[i],
                self.min_match(),
                self.lookback(),
            )
    }

    proof fn lemma_wf_valid(&self) {
    }

    fn from_messages(messages: &[&str]) -> (r: HashedGreedyBinary) {
        HashedGreedyBinary::with_config(&GreedySubstringConfig::default(), messages)
    }

    fn segments(&self) -> (r: Vec<Vec<Segment>>) {
        copy_segments(&self.inner)
    }

    fn render_with<F: Fn(usize, usize, usize, &[u8]) -> Vec<u8>>(&self, replacer: F) -> (r: Vec<
        Vec<u8>,
    >) {
        proof {
            assert forall|i: int| 0 <= i < self.encoding_view().len() implies in_bounds(
                bytes_view(self.messages@),
                #[trigger] segments_view(self.inner@)[i],
                0,
            ) by {
                assert(encodes(self.messages_view(), i, self.encoding_view()[i], self.min_match()));
            }
        }
        render_segments(&self.messages, &self.inner, &replacer)
    }

    fn render_with_static(&self, replacement: &[u8]) -> (r: Vec<Vec<u8>>) {
        render_segments_marked(&self.inner, replacement)
    }
}

} // verus!
