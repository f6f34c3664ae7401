//! The capped approximate matcher. Windows are filed under their key only the
//! first time their `(window key, cap hash)` pair is seen, which collapses the
//! positions of a long repeated block into one representative and keeps
//! buckets small on repetitive threads; at most `NCAP` bucket entries are
//! examined per lookup and extended only up to `CAP_LEN` bytes to pick the
//! winner; the winner alone is then extended fully by bisection and confirmed
//! byte by byte. A last pass merges adjacent references that continue one another.
use crate::cap_table::{
    new_pair_set, new_table, pair_contents, table_bucket, table_contents, table_has, CapTable,
};
use crate::capped_index::{
    cap_bucket, cap_index_holds, cap_key_seen, cap_literal_run, cap_table_is,
    insert_kmers_into_table, lemma_cap_bucket_entries, lemma_cap_index_empty, lemma_cap_table_is,
    valid_cap_entry, CAP_LEN,
};
use crate::coalesce::{coalesce, coalesce_references};
use crate::copy_forward::CopyForward;
use crate::encoding::{
    bytes_of, bytes_view, copy_segments, encodes, encodes_prefix, fits_at, in_bounds,
    lemma_encodes_complete, lemma_encodes_push, lemma_offset_push, offset, segments_view,
    valid_encoding, views, GreedySubstringConfig, Segment, SegmentView,
};
use crate::greedy::message_bytes;
use crate::hashed_binary::HashedGreedyBinary;
use crate::index::{
    index_capacity, kmer_key, lemma_lengths_fit, lengths_fit, prefix_tables, tables_for, usable,
    within_lookback,
};
use crate::matching::{
    agree, bytes_agree, confirm_extent, lcp, lemma_lcp_agree, lemma_lcp_at_least, lemma_lcp_skip,
};
use crate::render::{render_segments, render_segments_marked};
use crate::rolling::{is_prefix_table, range_hash};
use vstd::prelude::*;
use vstd::slice::slice_to_vec;

verus! {

/// Most bucket entries examined per lookup.
pub const NCAP: usize = 64;

/// The entries examined at offset `c` of message `i`: the first `NCAP`
/// entries of the bucket of its window, or none where fewer than `k` bytes remain.
pub open spec fn capped_examined(msgs: Seq<Seq<u8>>, k: int, i: int, c: int) -> Seq<
    (u64, usize, usize),
> {
    if c + k <= msgs[i].len() {
        let b = cap_bucket(msgs, k, i, kmer_key(msgs[i], c, k));
        if b.len() <= NCAP {
            b
        } else {
            b.take(NCAP as int)
        }
    } else {
        Seq::empty()
    }
}

/// Entry `e` may give a reference at offset `c`: its message is eligible and
/// it matches at least `k` bytes.
pub open spec fn capped_usable(
    msgs: Seq<Seq<u8>>,
    i: int,
    c: int,
    k: int,
    lookback: Option<usize>,
    e: (u64, usize, usize),
) -> bool {
    usable(msgs, i, c, k, lookback, (e.1, e.2))
}

/// The capped extension of entry `e` at offset `c`: its match length cut at
/// `CAP_LEN`, but never below `k`.
pub open spec fn capped_len(
    msgs: Seq<Seq<u8>>,
    i: int,
    c: int,
    k: int,
    e: (u64, usize, usize),
) -> int {
    let l = lcp(msgs[i], c, msgs[e.1 as int], e.2 as int) as int;
    if k >= CAP_LEN {
        k
    } else if l <= CAP_LEN {
        l
    } else {
        CAP_LEN as int
    }
}

/// Entry `t` of `cands` is usable, has the largest capped extension among the
/// usable entries, and a strictly larger one than every usable entry before it.
pub open spec fn first_capped(
    msgs: Seq<Seq<u8>>,
    i: int,
    c: int,
    k: int,
    lookback: Option<usize>,
    cands: Seq<(u64, usize, usize)>,
    t: int,
) -> bool {
    &&& 0 <= t < cands.len()
    &&& capped_usable(msgs, i, c, k, lookback, cands[t])
    &&& forall|u: int|
        0 <= u < cands.len() && capped_usable(msgs, i, c, k, lookback, #[trigger] cands[u])
            ==> capped_len(msgs, i, c, k, cands[u]) <= capped_len(msgs, i, c, k, cands[t])
    &&& forall|u: int|
        0 <= u < t && capped_usable(msgs, i, c, k, lookback, #[trigger] cands[u]) ==> capped_len(
            msgs,
            i,
            c,
            k,
            cands[u],
        ) < capped_len(msgs, i, c, k, cands[t])
}

/// Some examined entry at offset `c` is usable.
pub open spec fn some_capped_usable(
    msgs: Seq<Seq<u8>>,
    i: int,
    c: int,
    k: int,
    lookback: Option<usize>,
) -> bool {
    exists|t: int|
        0 <= t < capped_examined(msgs, k, i, c).len() && capped_usable(
            msgs,
            i,
            c,
            k,
            lookback,
            #[trigger] capped_examined(msgs, k, i, c)[t],
        )
}

/// The full extension of a usable entry is never shorter than its capped one.
pub proof fn lemma_full_covers_capped(
    msgs: Seq<Seq<u8>>,
    i: int,
    c: int,
    k: int,
    lookback: Option<usize>,
    e: (u64, usize, usize),
)
    requires
        capped_usable(msgs, i, c, k, lookback, e),
    ensures
        lcp(msgs[i], c, msgs[e.1 as int], e.2 as int) >= capped_len(msgs, i, c, k, e),
{
}

/// The segment the capped matcher emits at offset `c`, before merging: a
/// reference to the usable examined entry with the first largest capped
/// extension, extended fully; or, when none is usable, a literal up to the
/// next offset whose window key is indexed.
pub open spec fn capped_segment(
    msgs: Seq<Seq<u8>>,
    i: int,
    c: int,
    k: int,
    lookback: Option<usize>,
    seg: SegmentView,
) -> bool {
    if some_capped_usable(msgs, i, c, k, lookback) {
        match seg {
            SegmentView::Reference { message_idx, start, len } => exists|t: int|
                {
                    &&& first_capped(msgs, i, c, k, lookback, capped_examined(msgs, k, i, c), t)
                    &&& #[trigger] capped_examined(msgs, k, i, c)[t].1 == message_idx
                    &&& capped_examined(msgs, k, i, c)[t].2 == start
                    &&& len == lcp(msgs[i], c, msgs[message_idx as int], start as int)
                },
            SegmentView::Literal(_) => false,
        }
    } else {
        match seg {
            SegmentView::Literal(b) => cap_literal_run(msgs, k, i, c, b.len() as int),
            SegmentView::Reference { .. } => false,
        }
    }
}

/// Every segment of `segs` is the one the capped matcher emits at its offset.
pub open spec fn capped_encoding(
    msgs: Seq<Seq<u8>>,
    i: int,
    segs: Seq<SegmentView>,
    k: int,
    lookback: Option<usize>,
) -> bool {
    forall|n: int|
        0 <= n < segs.len() ==> capped_segment(
            msgs,
            i,
            offset(segs, n),
            k,
            lookback,
            #[trigger] segs[n],
        )
}

/// Appending the segment emitted at the end of an encoded prefix keeps every
/// segment the one emitted at its offset.
proof fn lemma_capped_push(
    msgs: Seq<Seq<u8>>,
    i: int,
    k: int,
    lookback: Option<usize>,
    segs: Seq<SegmentView>,
    x: SegmentView,
)
    requires
        capped_encoding(msgs, i, segs, k, lookback),
        capped_segment(msgs, i, offset(segs, segs.len() as int), k, lookback, x),
    ensures
        capped_encoding(msgs, i, segs.push(x), k, lookback),
{
    let t = segs.push(x);
    assert forall|n: int| 0 <= n < t.len() implies capped_segment(
        msgs,
        i,
        offset(t, n),
        k,
        lookback,
        #[trigger] t[n],
    ) by {
        lemma_offset_push(segs, x, n);
        if n < segs.len() {
            assert(t[n] == segs[n]);
        }
    }
}

/// The entries examined at offset `cursor` of message `i`.
fn lookup_capped(
    messages: &Vec<Vec<u8>>,
    prefixes: &Vec<(Vec<u64>, Vec<u64>)>,
    table: &CapTable,
    i: usize,
    cursor: usize,
    k: usize,
) -> (r: Vec<(u64, usize, usize)>)
    requires
        i < messages.len(),
        prefixes.len() == messages.len(),
        is_prefix_table(prefixes[i as int], messages[i as int]@),
        cursor < messages[i as int].len(),
        k >= 1,
        cap_table_is(table_contents(*table), bytes_view(messages@), k as int, i as int),
    ensures
        r@ == capped_examined(bytes_view(messages@), k as int, i as int, cursor as int),
{
    let ghost msgs = bytes_view(messages@);
    assert(msgs[i as int] == messages[i as int]@);
    let mut r: Vec<(u64, usize, usize)> = Vec::new();
    if k <= messages[i].len() - cursor {
        let key = range_hash(&prefixes[i], cursor, cursor + k);
        match table_bucket(table, key) {
            Some(cands) => {
                let ghost b = cands@;
                assert(table_contents(*table).contains_key(key));
                let mut t: usize = 0;
                while t < cands.len() && t < NCAP
                    invariant
                        b == cands@,
                        t <= cands.len(),
                        t <= NCAP,
                        r@ == b.take(t as int),
                    decreases cands.len() - t,
                {
                    r.push(cands[t]);
                    t = t + 1;
                    assert(r@ =~= b.take(t as int));
                }
                assert(b.len() <= NCAP ==> b.take(b.len() as int) =~= b);
            },
            None => {
                assert(!table_contents(*table).contains_key(key));
            },
        }
    }
    r
}

impl CappedHashedGreedy {
    /// Extends a candidate whose first `initial_k` bytes agree, byte by byte,
    /// but not past `CAP_LEN` bytes.
    fn extend_candidate_capped(
        bytes: &[u8],
        prev_bytes: &[u8],
        cursor: usize,
        ref_start: usize,
        initial_k: usize,
    ) -> (r: usize)
        requires
            agree(bytes@, cursor as int, prev_bytes@, ref_start as int, initial_k as int),
        ensures
            r == (if initial_k >= CAP_LEN {
                initial_k as int
            } else if lcp(bytes@, cursor as int, prev_bytes@, ref_start as int) <= CAP_LEN {
                lcp(bytes@, cursor as int, prev_bytes@, ref_start as int) as int
            } else {
                CAP_LEN as int
            }),
    {
        proof {
            lemma_lcp_skip(bytes@, cursor as int, prev_bytes@, ref_start as int, initial_k as int);
        }
        let mut match_len = initial_k;
        while match_len < CAP_LEN && cursor + match_len < bytes.len() && ref_start + match_len
            < prev_bytes.len() && bytes[cursor + match_len] == prev_bytes[ref_start + match_len]
            invariant
                initial_k <= match_len,
                match_len > initial_k ==> match_len <= CAP_LEN,
                cursor + match_len <= bytes.len(),
                ref_start + match_len <= prev_bytes.len(),
                lcp(bytes@, cursor as int, prev_bytes@, ref_start as int) == match_len + lcp(
                    bytes@,
                    cursor + match_len,
                    prev_bytes@,
                    ref_start + match_len,
                ),
            decreases bytes.len() - match_len,
        {
            match_len = match_len + 1;
        }
        match_len
    }

    /// Extends the winning candidate fully: bisection on window-hash equality
    /// from its capped length, confirmed byte by byte. Never shorter than the
    /// capped length it starts from.
    fn extend_candidate_full(
        pref_cur: &(Vec<u64>, Vec<u64>),
        pref_prev: &(Vec<u64>, Vec<u64>),
        bytes: &[u8],
        prev_bytes: &[u8],
        cursor: usize,
        ref_start: usize,
        initial_k: usize,
    ) -> (r: usize)
        requires
            is_prefix_table(*pref_cur, bytes@),
            is_prefix_table(*pref_prev, prev_bytes@),
            agree(bytes@, cursor as int, prev_bytes@, ref_start as int, initial_k as int),
        ensures
            r == lcp(bytes@, cursor as int, prev_bytes@, ref_start as int),
            r >= initial_k,
    {
        let extent = HashedGreedyBinary::extend_candidate_binary(
            pref_cur,
            pref_prev,
            cursor,
            ref_start,
            initial_k,
            Ghost(bytes@),
            Ghost(prev_bytes@),
        );
        confirm_extent(bytes, cursor, prev_bytes, ref_start, initial_k, extent)
    }

    /// The usable examined entry at offset `cursor` with the first largest
    /// capped extension: `(capped length, message_idx, start)`.
    fn select_capped(
        messages: &Vec<Vec<u8>>,
        prefixes: &Vec<(Vec<u64>, Vec<u64>)>,
        table: &CapTable,
        i: usize,
        cursor: usize,
        k: usize,
        lookback: Option<usize>,
    ) -> (r: Option<(usize, usize, usize)>)
        requires
            i < messages.len(),
            tables_for(prefixes@, messages@),
            cursor < messages[i as int].len(),
            k >= 1,
            cap_table_is(table_contents(*table), bytes_view(messages@), k as int, i as int),
        ensures
            r is None <==> !some_capped_usable(
                bytes_view(messages@),
                i as int,
                cursor as int,
                k as int,
                lookback,
            ),
            r matches Some((len, j, s)) ==> exists|t: int|
                {
                    &&& first_capped(
                        bytes_view(messages@),
                        i as int,
                        cursor as int,
                        k as int,
                        lookback,
                        capped_examined(bytes_view(messages@), k as int, i as int, cursor as int),
                        t,
                    )
                    &&& #[trigger] capped_examined(
                        bytes_view(messages@),
                        k as int,
                        i as int,
                        cursor as int,
                    )[t].1 == j
                    &&& capped_examined(
                        bytes_view(messages@),
                        k as int,
                        i as int,
                        cursor as int,
                    )[t].2 == s
                    &&& len == capped_len(
                        bytes_view(messages@),
                        i as int,
                        cursor as int,
                        k as int,
                        capped_examined(
                            bytes_view(messages@),
                            k as int,
                            i as int,
                            cursor as int,
                        )[t],
                    )
                    &&& j < i
                    &&& agree(
                        bytes_view(messages@)[i as int],
                        cursor as int,
                        bytes_view(messages@)[j as int],
                        s as int,
                        len as int,
                    )
                },
    {
        let ghost msgs = bytes_view(messages@);
        let ghost ex = capped_examined(msgs, k as int, i as int, cursor as int);
        let msg = messages[i].as_slice();
        assert(msgs[i as int] == msg@);
        let cands = lookup_capped(messages, prefixes, table, i, cursor, k);
        proof {
            lemma_lengths_fit(messages);
            lemma_cap_bucket_entries(
                msgs,
                k as int,
                i as int,
                kmer_key(msgs[i as int], cursor as int, k as int),
            );
            let bk = cap_bucket(
                msgs,
                k as int,
                i as int,
                kmer_key(msgs[i as int], cursor as int, k as int),
            );
            assert forall|u: int| 0 <= u < ex.len() implies valid_cap_entry(
                msgs,
                k as int,
                i as int,
                kmer_key(msgs[i as int], cursor as int, k as int),
                #[trigger] ex[u],
            ) by {
                assert(ex[u] == bk[u]);
            }
        }
        let mut best: Option<(usize, usize, usize)> = None;
        let ghost mut bt: int = 0;
        let mut t: usize = 0;
        while t < cands.len()
            invariant
                msgs == bytes_view(messages@),
                ex == capped_examined(msgs, k as int, i as int, cursor as int),
                msg@ == msgs[i as int],
                i < messages.len(),
                cursor < msg@.len(),
                k >= 1,
                t <= ex.len(),
                ex == cands@,
                forall|u: int| 0 <= u < ex.len() ==> valid_cap_entry(
                    msgs,
                    k as int,
                    i as int,
                    kmer_key(msgs[i as int], cursor as int, k as int),
                    #[trigger] ex[u],
                ),
                best is None ==> forall|u: int| 0 <= u < t ==> !capped_usable(
                    msgs,
                    i as int,
                    cursor as int,
                    k as int,
                    lookback,
                    #[trigger] ex[u],
                ),
                best matches Some((len, bj, bs)) ==> {
                    &&& 0 <= bt < t
                    &&& ex[bt].1 == bj
                    &&& ex[bt].2 == bs
                    &&& capped_usable(msgs, i as int, cursor as int, k as int, lookback, ex[bt])
                    &&& len == capped_len(msgs, i as int, cursor as int, k as int, ex[bt])
                    &&& forall|u: int|
                        0 <= u < t && capped_usable(
                            msgs,
                            i as int,
                            cursor as int,
                            k as int,
                            lookback,
                            #[trigger] ex[u],
                        ) ==> capped_len(
                            msgs,
                            i as int,
                            cursor as int,
                            k as int,
                            ex[u],
                        ) <= len
                    &&& forall|u: int|
                        0 <= u < bt && capped_usable(
                            msgs,
                            i as int,
                            cursor as int,
                            k as int,
                            lookback,
                            #[trigger] ex[u],
                        ) ==> capped_len(
                            msgs,
                            i as int,
                            cursor as int,
                            k as int,
                            ex[u],
                        ) < len
                },
            decreases cands.len() - t,
        {
            let (_, midx, ref_start) = cands[t];
            assert(valid_cap_entry(
                msgs,
                k as int,
                i as int,
                kmer_key(msgs[i as int], cursor as int, k as int),
                ex[t as int],
            ));
            let prev = messages[midx].as_slice();
            assert(prev@ == msgs[midx as int]);
            let ok = within_lookback(i, midx, lookback) && k <= msg.len() - cursor && bytes_agree(
                msg,
                cursor,
                prev,
                ref_start,
                k,
            );
            proof {
                if k <= msg.len() - cursor {
                    lemma_lcp_at_least(
                        msgs[i as int],
                        cursor as int,
                        msgs[midx as int],
                        ref_start as int,
                        k as int,
                    );
                } else {
                    lemma_lcp_agree(
                        msgs[i as int],
                        cursor as int,
                        msgs[midx as int],
                        ref_start as int,
                    );
                }
            }
            assert(ok == capped_usable(
                msgs,
                i as int,
                cursor as int,
                k as int,
                lookback,
                ex[t as int],
            ));
            if ok {
                let len = Self::extend_candidate_capped(msg, prev, cursor, ref_start, k);
                let better = match best {
                    None => true,
                    Some((best_len, _, _)) => len > best_len,
                };
                if better {
                    best = Some((len, midx, ref_start));
                    proof {
                        bt = t as int;
                    }
                }
            }
            t = t + 1;
        }
        proof {
            assert(t == ex.len());
            if let Some((len, j, s)) = best {
                assert(first_capped(msgs, i as int, cursor as int, k as int, lookback, ex, bt));
                assert(valid_cap_entry(
                    msgs,
                    k as int,
                    i as int,
                    kmer_key(msgs[i as int], cursor as int, k as int),
                    ex[bt],
                ));
                lemma_lcp_agree(msgs[i as int], cursor as int, msgs[j as int], s as int);
                assert forall|u: int| 0 <= u < len implies #[trigger] msgs[i as int][cursor + u]
                    == msgs[j as int][s + u] by {}
            } else {
                if some_capped_usable(msgs, i as int, cursor as int, k as int, lookback) {
                    let u = choose|u: int| 0 <= u < ex.len() && capped_usable(
                        msgs,
                        i as int,
                        cursor as int,
                        k as int,
                        lookback,
                        #[trigger] ex[u],
                    );
                    assert(false);
                }
            }
        }
        best
    }
}

/// Matcher with a deduplicated index, bounded candidate lists and two-phase
/// extension.
pub struct CappedHashedGreedy {
    inner: Vec<Vec<Segment>>,
    messages: Vec<Vec<u8>>,
    pub config: GreedySubstringConfig,
}

impl CappedHashedGreedy {
    /// Whether the window of length `k` at `p` in message `i` has an indexed key.
    fn window_indexed(
        messages: &Vec<Vec<u8>>,
        prefixes: &Vec<(Vec<u64>, Vec<u64>)>,
        table: &CapTable,
        i: usize,
        p: usize,
        k: usize,
    ) -> (r: bool)
        requires
            i < messages.len(),
            prefixes.len() == messages.len(),
            is_prefix_table(prefixes[i as int], messages[i as int]@),
            p < messages[i as int].len(),
            cap_table_is(table_contents(*table), bytes_view(messages@), k as int, i as int),
        ensures
            r == cap_key_seen(bytes_view(messages@), k as int, i as int, p as int),
    {
        let ghost msgs = bytes_view(messages@);
        assert(msgs[i as int] == messages[i as int]@);
        if k <= messages[i].len() - p {
            let key = range_hash(&prefixes[i], p, p + k);
            assert(key == kmer_key(msgs[i as int], p as int, k as int));
            let r = table_has(table, key);
            assert(table_contents(*table).contains_key(key) <==> cap_bucket(
                msgs,
                k as int,
                i as int,
                key,
            ).len() > 0);
            r
        } else {
            false
        }
    }

    /// End of the literal that starts at `cursor` of message `i`: the first
    /// later offset whose window key is indexed, or the end of the message.
    fn literal_end_from(
        messages: &Vec<Vec<u8>>,
        prefixes: &Vec<(Vec<u64>, Vec<u64>)>,
        table: &CapTable,
        i: usize,
        cursor: usize,
        k: usize,
    ) -> (e: usize)
        requires
            i < messages.len(),
            prefixes.len() == messages.len(),
            is_prefix_table(prefixes[i as int], messages[i as int]@),
            cursor < messages[i as int].len(),
            cap_table_is(table_contents(*table), bytes_view(messages@), k as int, i as int),
        ensures
            cursor < e <= messages[i as int].len(),
            cap_literal_run(bytes_view(messages@), k as int, i as int, cursor as int, e - cursor),
    {
        let ghost msgs = bytes_view(messages@);
        assert(msgs[i as int] == messages[i as int]@);
        let len = messages[i].len();
        let mut literal_end = cursor + 1;
        while literal_end < len && !Self::window_indexed(
            messages,
            prefixes,
            table,
            i,
            literal_end,
            k,
        )
            invariant
                i < messages.len(),
                prefixes.len() == messages.len(),
                is_prefix_table(prefixes[i as int], messages[i as int]@),
                cap_table_is(table_contents(*table), msgs, k as int, i as int),
                msgs == bytes_view(messages@),
                len == msgs[i as int].len(),
                cursor < literal_end <= len,
                forall|p: int|
                    cursor < p < literal_end ==> !#[trigger] cap_key_seen(
                        msgs,
                        k as int,
                        i as int,
                        p,
                    ),
            decreases len - literal_end,
        {
            literal_end = literal_end + 1;
        }
        literal_end
    }

    /// The usable examined entry at offset `cursor` with the first largest
    /// capped extension, extended fully: `(len, message_idx, start)`.
    fn best_candidate(
        messages: &Vec<Vec<u8>>,
        prefixes: &Vec<(Vec<u64>, Vec<u64>)>,
        table: &CapTable,
        i: usize,
        cursor: usize,
        k: usize,
        lookback: Option<usize>,
    ) -> (r: Option<(usize, usize, usize)>)
        requires
            i < messages.len(),
            tables_for(prefixes@, messages@),
            cursor < messages[i as int].len(),
            k >= 1,
            cap_table_is(table_contents(*table), bytes_view(messages@), k as int, i as int),
        ensures
            r is None <==> !some_capped_usable(
                bytes_view(messages@),
                i as int,
                cursor as int,
                k as int,
                lookback,
            ),
            r matches Some((len, j, s)) ==> exists|t: int|
                {
                    &&& first_capped(
                        bytes_view(messages@),
                        i as int,
                        cursor as int,
                        k as int,
                        lookback,
                        capped_examined(bytes_view(messages@), k as int, i as int, cursor as int),
                        t,
                    )
                    &&& #[trigger] capped_examined(
                        bytes_view(messages@),
                        k as int,
                        i as int,
                        cursor as int,
                    )[t].1 == j
                    &&& capped_examined(
                        bytes_view(messages@),
                        k as int,
                        i as int,
                        cursor as int,
                    )[t].2 == s
                    &&& len == lcp(
                        bytes_view(messages@)[i as int],
                        cursor as int,
                        bytes_view(messages@)[j as int],
                        s as int,
                    )
                },
    {
        let ghost msgs = bytes_view(messages@);
        match Self::select_capped(messages, prefixes, table, i, cursor, k, lookback) {
            Some((capped, j, s)) => {
                let msg = messages[i].as_slice();
                let prev = messages[j].as_slice();
                proof {
                    assert(msg@ == msgs[i as int]);
                    assert(prev@ == msgs[j as int]);
                }
                let full = Self::extend_candidate_full(
                    &prefixes[i],
                    &prefixes[j],
                    msg,
                    prev,
                    cursor,
                    s,
                    capped,
                );
                Some((full, j, s))
            },
            None => None,
        }
    }

    /// Encodes message `i` against the index of messages `0..i`, before merging.
    fn encode_message(
        messages: &Vec<Vec<u8>>,
        prefixes: &Vec<(Vec<u64>, Vec<u64>)>,
        table: &CapTable,
        i: usize,
        k: usize,
        lookback: Option<usize>,
    ) -> (r: Vec<Segment>)
        requires
            i < messages.len(),
            tables_for(prefixes@, messages@),
            k >= 1,
            cap_table_is(table_contents(*table), bytes_view(messages@), k as int, i as int),
        ensures
            encodes(bytes_view(messages@), i as int, views(r@), k as int),
            capped_encoding(bytes_view(messages@), i as int, views(r@), k as int, lookback),
    {
        let ghost msgs = bytes_view(messages@);
        let msg = messages[i].as_slice();
        assert(msg@ == msgs[i as int]);
        let mut segs: Vec<Segment> = Vec::new();
        let mut cursor: usize = 0;
        while cursor < msg.len()
            invariant
                i < messages.len(),
                tables_for(prefixes@, messages@),
                k >= 1,
                cap_table_is(table_contents(*table), msgs, k as int, i as int),
                msgs == bytes_view(messages@),
                msg@ == msgs[i as int],
                cursor <= msg@.len(),
                offset(views(segs@), segs.len() as int) == cursor,
                encodes_prefix(msgs, i as int, views(segs@), k as int),
                capped_encoding(msgs, i as int, views(segs@), k as int, lookback),
            decreases msg.len() - cursor,
        {
            let ghost old_view = views(segs@);
            let seg = match Self::best_candidate(
                messages,
                prefixes,
                table,
                i,
                cursor,
                k,
                lookback,
            ) {
                Some((len, j, s)) => {
                    proof {
                        lemma_lcp_agree(msgs[i as int], cursor as int, msgs[j as int], s as int);
                    }
                    Segment::Reference { message_idx: j, start: s, len }
                },
                None => {
                    let literal_end = Self::literal_end_from(
                        messages,
                        prefixes,
                        table,
                        i,
                        cursor,
                        k,
                    );
                    Segment::Literal(slice_to_vec(&msg[cursor..literal_end]))
                },
            };
            let ghost sv = seg@;
            let step = match &seg {
                Segment::Literal(b) => b.len(),
                Segment::Reference { len, .. } => *len,
            };
            proof {
                assert(fits_at(msgs, i as int, cursor as int, k as int, sv));
                assert(capped_segment(msgs, i as int, cursor as int, k as int, lookback, sv));
                lemma_encodes_push(msgs, i as int, k as int, old_view, sv);
            }
            segs.push(seg);
            proof {
                assert(views(segs@) =~= old_view.push(sv));
                lemma_capped_push(msgs, i as int, k as int, lookback, old_view, sv);
            }
            cursor = cursor + step;
        }
        proof {
            lemma_encodes_complete(msgs, i as int, k as int, views(segs@));
        }
        segs
    }
}

/// `segs` is the capped matcher's encoding of message `i`: a valid encoding
/// that it selects position by position, with continuing references merged.
pub open spec fn capped_message(
    msgs: Seq<Seq<u8>>,
    i: int,
    segs: Seq<SegmentView>,
    k: int,
    lookback: Option<usize>,
) -> bool {
    exists|raw: Seq<SegmentView>|
        {
            &&& encodes(msgs, i, raw, k)
            &&& capped_encoding(msgs, i, raw, k, lookback)
            &&& segs == #[trigger] coalesce(raw)
        }
}

impl CappedHashedGreedy {
    /// Builds the encoding of `messages` under `config`: windows of length
    /// `min_match_len` are filed one message behind the cursor, and continuing
    /// references are merged once each message is encoded. Candidates from
    /// messages beyond `lookback` are passed over.
    pub fn with_config(config: &GreedySubstringConfig, messages: &[&str]) -> (r: CappedHashedGreedy)
        requires
            config.min_match_len >= 1,
        ensures
            r.wf(),
            r.messages_view() == bytes_of(messages@),
            r.min_match() == config.min_match_len,
            r.lookback() == config.lookback,
    {
        let k = config.min_match_len;
        let messages_vec = message_bytes(messages);
        let prefixes = prefix_tables(&messages_vec);
        let ghost msgs = bytes_view(messages_vec@);
        proof {
            lemma_lengths_fit(&messages_vec);
            lemma_cap_index_empty(msgs, k as int);
        }
        let capacity = index_capacity(&messages_vec, k);
        let mut table = new_table(capacity);
        let mut seen = new_pair_set(capacity);
        let mut inner: Vec<Vec<Segment>> = Vec::with_capacity(messages_vec.len());
        let mut i: usize = 0;
        while i < messages_vec.len()
            invariant
                i <= messages_vec.len(),
                inner.len() == i,
                k == config.min_match_len,
                k >= 1,
                msgs == bytes_view(messages_vec@),
                lengths_fit(msgs),
                prefixes.len() == messages_vec.len(),
                forall|j: int| 0 <= j < prefixes.len() ==> is_prefix_table(
                    #[trigger] prefixes@[j],
                    messages_vec@[j]@,
                ),
                i == 0 ==> cap_index_holds(
                    table_contents(table),
                    pair_contents(seen),
                    msgs,
                    k as int,
                    0,
                    0,
                ),
                i > 0 ==> cap_index_holds(
                    table_contents(table),
                    pair_contents(seen),
                    msgs,
                    k as int,
                    i - 1,
                    0,
                ),
                forall|i2: int|
                    0 <= i2 < i ==> {
                        &&& encodes(msgs, i2, views(#[trigger] inner@[i2]@), k as int)
                        &&& capped_message(msgs, i2, views(inner@[i2]@), k as int, config.lookback)
                    },
            decreases messages_vec.len() - i,
        {
            if i > 0 {
                insert_kmers_into_table(&mut table, &mut seen, &messages_vec, &prefixes, i - 1, k);
            }
            proof {
                lemma_cap_table_is(
                    table_contents(table),
                    pair_contents(seen),
                    msgs,
                    k as int,
                    i as int,
                );
            }
            let raw = Self::encode_message(&messages_vec, &prefixes, &table, i, k, config.lookback);
            let segs = coalesce_references(&raw, Ghost(msgs), Ghost(i as int), Ghost(k as int));
            proof {
                assert(views(segs@) == coalesce(views(raw@)));
            }
            inner.push(segs);
            i = i + 1;
        }
        CappedHashedGreedy { inner, messages: messages_vec, config: *config }
    }
}

impl CopyForward for CappedHashedGreedy {
    closed spec fn messages_view(&self) -> Seq<Seq<u8>> {
        bytes_view(self.messages@)
    }

    closed spec fn encoding_view(&self) -> Seq<Seq<SegmentView>> {
        segments_view(self.inner@)
    }

    closed spec fn min_match(&self) -> int {
        self.config.min_match_len as int
    }

    closed spec fn lookback(&self) -> Option<usize> {
        self.config.lookback
    }

    /// The encoding of every message is the one the capped matcher builds.
    open spec fn wf(&self) -> bool {
        &&& self.min_match() >= 1
        &&& valid_encoding(self.messages_view(), self.encoding_view(), self.min_match())
        &&& forall|i: int|
            0 <= i < self.messages_view().len() ==> capped_message(
                self.messages_view(),
                i,
                #[trigger] self.encoding_view()[i],
                self.min_match(),
                self.lookback(),
            )
    }

    proof fn lemma_wf_valid(&self) {
    }

    fn from_messages(messages: &[&str]) -> (r: CappedHashedGreedy) {
        CappedHashedGreedy::with_config(&GreedySubstringConfig::default(), messages)
    }

    fn segments(&self) -> (r: Vec<Vec<Segment>>) {
        copy_segments(&self.inner)
    }

    fn render_with<F: Fn(usize, usize, usize, &[u8]) -> Vec<u8>>(&self, replacer: F) -> (r: Vec<
        Vec<u8>,
    >) {
        proof {
            assert forall|i: int| 0 <= i < self.encoding_view().len() implies in_bounds(
                bytes_view(self.messages@),
                #[trigger] segments_view(self.inner@)[i],
                0,
            ) by {
                assert(encodes(self.messages_view(), i, self.encoding_view()[i], self.min_match()));
            }
        }
        render_segments(&self.messages, &self.inner, &replacer)
    }

    fn render_with_static(&self, replacement: &[u8]) -> (r: Vec<Vec<u8>>) {
        render_segments_marked(&self.inner, replacement)
    }
}

} // verus!
