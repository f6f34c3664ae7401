//! The incremental hashed matcher: the windows of length `k` of every earlier
//! message are filed in an index under their rolling hash, one message behind
//! the cursor; at each offset the bucket of the current window gives the
//! candidates, each confirmed byte by byte and extended as far as it matches.
use crate::copy_forward::CopyForward;
use crate::encoding::{
    bytes_of, bytes_view, copy_segments, encodes, encodes_prefix, fits_at, in_bounds,
    lemma_encodes_complete, lemma_encodes_push, lemma_offset_push, offset, segments_view,
    valid_encoding, views, GreedySubstringConfig, Segment, SegmentView,
};
use crate::matching::{bytes_agree, extend_match, lcp, lemma_lcp_agree, lemma_lcp_at_least};
use crate::render::{render_segments, render_segments_marked};
use crate::greedy::message_bytes;
use crate::index::{
    bucket, examined, index_capacity, index_holds, insert_kmers_into_table, kmer_key,
    lemma_bucket_entries, lemma_index_empty, lemma_lengths_fit, literal_end_from, literal_run,
    lookup_candidates, prefix_tables, tables_for, usable, valid_entry, within_lookback,
};
use crate::rolling::is_prefix_table;
use std::collections::HashMap;
use vstd::prelude::*;
use vstd::slice::slice_to_vec;

verus! {

/// Entry `t` of `cands` is usable, matches longest among the usable entries,
/// and strictly longer than every usable entry before it.
pub open spec fn first_longest(
    msgs: Seq<Seq<u8>>,
    i: int,
    c: int,
    k: int,
    lookback: Option<usize>,
    cands: Seq<(usize, usize)>,
    t: int,
) -> bool {
    &&& 0 <= t < cands.len()
    &&& usable(msgs, i, c, k, lookback, cands[t])
    &&& forall|u: int|
        0 <= u < cands.len() && usable(msgs, i, c, k, lookback, #[trigger] cands[u]) ==> lcp(
            msgs[i],
            c,
            msgs[cands[u].0 as int],
            cands[u].1 as int,
        ) <= lcp(msgs[i], c, msgs[cands[t].0 as int], cands[t].1 as int)
    &&& forall|u: int|
        0 <= u < t && usable(msgs, i, c, k, lookback, #[trigger] cands[u]) ==> lcp(
            msgs[i],
            c,
            msgs[cands[u].0 as int],
            cands[u].1 as int,
        ) < lcp(msgs[i], c, msgs[cands[t].0 as int], cands[t].1 as int)
}

/// Some examined candidate at offset `c` is usable.
pub open spec fn some_usable(
    msgs: Seq<Seq<u8>>,
    i: int,
    c: int,
    k: int,
    lookback: Option<usize>,
) -> bool {
    exists|t: int|
        0 <= t < examined(msgs, k, i, c).len() && usable(
            msgs,
            i,
            c,
            k,
            lookback,
            #[trigger] examined(msgs, k, i, c)[t],
        )
}

/// The segment the hashed matcher emits at offset `c`: a reference to the
/// first longest usable examined candidate, extended as far as it matches; or,
/// when none is usable, a literal up to the next offset whose window key is indexed.
pub open spec fn hashed_segment(
    msgs: Seq<Seq<u8>>,
    i: int,
    c: int,
    k: int,
    lookback: Option<usize>,
    seg: SegmentView,
) -> bool {
    if some_usable(msgs, i, c, k, lookback) {
        match seg {
            SegmentView::Reference { message_idx, start, len } => exists|t: int|
                {
                    &&& first_longest(msgs, i, c, k, lookback, examined(msgs, k, i, c), t)
                    &&& #[trigger] examined(msgs, k, i, c)[t] == (message_idx, start)
                    &&& len == lcp(msgs[i], c, msgs[message_idx as int], start as int)
                },
            SegmentView::Literal(_) => false,
        }
    } else {
        match seg {
            SegmentView::Literal(b) => literal_run(msgs, k, i, c, b.len() as int),
            SegmentView::Reference { .. } => false,
        }
    }
}

/// Every segment of `segs` is the one the hashed matcher emits at its offset.
pub open spec fn hashed_encoding(
    msgs: Seq<Seq<u8>>,
    i: int,
    segs: Seq<SegmentView>,
    k: int,
    lookback: Option<usize>,
) -> bool {
    forall|n: int|
        0 <= n < segs.len() ==> hashed_segment(
            msgs,
            i,
            offset(segs, n),
            k,
            lookback,
            #[trigger] segs[n],
        )
}

/// Appending the segment emitted at the end of an encoded prefix keeps every
/// segment the one emitted at its offset.
proof fn lemma_hashed_push(
    msgs: Seq<Seq<u8>>,
    i: int,
    k: int,
    lookback: Option<usize>,
    segs: Seq<SegmentView>,
    x: SegmentView,
)
    requires
        hashed_encoding(msgs, i, segs, k, lookback),
        hashed_segment(msgs, i, offset(segs, segs.len() as int), k, lookback, x),
    ensures
        hashed_encoding(msgs, i, segs.push(x), k, lookback),
{
    let t = segs.push(x);
    assert forall|n: int| 0 <= n < t.len() implies hashed_segment(
        msgs,
        i,
        offset(t, n),
        k,
        lookback,
        #[trigger] t[n],
    ) by {
        lemma_offset_push(segs, x, n);
        if n < segs.len() {
            assert(t[n] == segs[n]);
        }
    }
}

/// Matcher that finds candidates through an incremental rolling-hash index
/// and extends them byte by byte.
pub struct HashedGreedy {
    inner: Vec<Vec<Segment>>,
    messages: Vec<Vec<u8>>,
    pub config: GreedySubstringConfig,
}

impl HashedGreedy {
    /// The first longest usable candidate at offset `cursor`:
    /// `(len, message_idx, start)`, or `None` when no examined candidate is usable.
    fn best_candidate(
        messages: &Vec<Vec<u8>>,
        prefixes: &Vec<(Vec<u64>, Vec<u64>)>,
        table: &HashMap<u64, Vec<(usize, usize)>>,
        i: usize,
        cursor: usize,
        k: usize,
        lookback: Option<usize>,
    ) -> (r: Option<(usize, usize, usize)>)
        requires
            i < messages.len(),
            prefixes.len() == messages.len(),
            is_prefix_table(prefixes[i as int], messages[i as int]@),
            cursor < messages[i as int].len(),
            k >= 1,
            index_holds(table@, bytes_view(messages@), k as int, i as int, 0),
        ensures
            r is None <==> !some_usable(
                bytes_view(messages@),
                i as int,
                cursor as int,
                k as int,
                lookback,
            ),
            r matches Some((len, j, s)) ==> exists|t: int|
                {
                    &&& first_longest(
                        bytes_view(messages@),
                        i as int,
                        cursor as int,
                        k as int,
                        lookback,
                        examined(bytes_view(messages@), k as int, i as int, cursor as int),
                        t,
                    )
                    &&& #[trigger] examined(
                        bytes_view(messages@),
                        k as int,
                        i as int,
                        cursor as int,
                    )[t]
                        == (j, s)
                    &&& len == lcp(
                        bytes_view(messages@)[i as int],
                        cursor as int,
                        bytes_view(messages@)[j as int],
                        s as int,
                    )
                },
    {
        let ghost msgs = bytes_view(messages@);
        let ghost ex = examined(msgs, k as int, i as int, cursor as int);
        let msg = messages[i].as_slice();
        assert(msgs[i as int] == msg@);
        let cands = lookup_candidates(messages, prefixes, table, i, cursor, k);
        proof {
            lemma_lengths_fit(messages);
            lemma_bucket_entries(
                msgs,
                k as int,
                i as int,
                kmer_key(msgs[i as int], cursor as int, k as int),
            );
            let bk = bucket(
                msgs,
                k as int,
                i as int,
                kmer_key(msgs[i as int], cursor as int, k as int),
            );
            assert forall|u: int| 0 <= u < ex.len() implies valid_entry(
                msgs,
                k as int,
                i as int,
                kmer_key(msgs[i as int], cursor as int, k as int),
                #[trigger] ex[u],
            ) by {
                assert(ex[u] == bk[u]);
            }
        }
        let mut best: Option<(usize, usize, usize)> = None;
        let ghost mut bt: int = 0;
        let mut t: usize = 0;
        while t < cands.len()
            invariant
                msgs == bytes_view(messages@),
                ex == examined(msgs, k as int, i as int, cursor as int),
                msg@ == msgs[i as int],
                i < messages.len(),
                cursor < msg@.len(),
                k >= 1,
                t <= ex.len(),
                ex == cands@,
                forall|u: int| 0 <= u < ex.len() ==> valid_entry(
                    msgs,
                    k as int,
                    i as int,
                    kmer_key(msgs[i as int], cursor as int, k as int),
                    #[trigger] ex[u],
                ),
                best is None ==> forall|u: int| 0 <= u < t ==> !usable(
                    msgs,
                    i as int,
                    cursor as int,
                    k as int,
                    lookback,
                    #[trigger] ex[u],
                ),
                best matches Some((len, bj, bs)) ==> {
                    &&& 0 <= bt < t
                    &&& ex[bt] == (bj, bs)
                    &&& usable(msgs, i as int, cursor as int, k as int, lookback, ex[bt])
                    &&& len == lcp(msgs[i as int], cursor as int, msgs[bj as int], bs as int)
                    &&& forall|u: int|
                        0 <= u < t && usable(
                            msgs,
                            i as int,
                            cursor as int,
                            k as int,
                            lookback,
                            #[trigger] ex[u],
                        ) ==> lcp(
                            msgs[i as int],
                            cursor as int,
                            msgs[ex[u].0 as int],
                            ex[u].1 as int,
                        ) <= len
                    &&& forall|u: int|
                        0 <= u < bt && usable(
                            msgs,
                            i as int,
                            cursor as int,
                            k as int,
                            lookback,
                            #[trigger] ex[u],
                        ) ==> lcp(
                            msgs[i as int],
                            cursor as int,
                            msgs[ex[u].0 as int],
                            ex[u].1 as int,
                        ) < len
                },
            decreases cands.len() - t,
        {
            let (midx, ref_start) = cands[t];
            assert(ex[t as int] == (midx, ref_start));
            assert(valid_entry(
                msgs,
                k as int,
                i as int,
                kmer_key(msgs[i as int], cursor as int, k as int),
                ex[t as int],
            ));
            let prev = messages[midx].as_slice();
            assert(prev@ == msgs[midx as int]);
            let ok = within_lookback(i, midx, lookback) && k <= msg.len() - cursor && bytes_agree(
                msg,
                cursor,
                prev,
                ref_start,
                k,
            );
            proof {
                if k <= msg.len() - cursor {
                    lemma_lcp_at_least(
                        msgs[i as int],
                        cursor as int,
                        msgs[midx as int],
                        ref_start as int,
                        k as int,
                    );
                } else {
                    lemma_lcp_agree(
                        msgs[i as int],
                        cursor as int,
                        msgs[midx as int],
                        ref_start as int,
                    );
                }
            }
            assert(ok == usable(msgs, i as int, cursor as int, k as int, lookback, ex[t as int]));
            if ok {
                let len = extend_match(msg, cursor, prev, ref_start, k);
                let better = match best {
                    None => true,
                    Some((best_len, _, _)) => len > best_len,
                };
                if better {
                    best = Some((len, midx, ref_start));
                    proof {
                        bt = t as int;
                    }
                }
            }
            t = t + 1;
        }
        proof {
            assert(t == ex.len());
            if let Some((len, j, s)) = best {
                assert(first_longest(msgs, i as int, cursor as int, k as int, lookback, ex, bt));
                assert(ex[bt] == (j, s));
            } else {
                if some_usable(msgs, i as int, cursor as int, k as int, lookback) {
                    let u = choose|u: int| 0 <= u < ex.len() && usable(
                        msgs,
                        i as int,
                        cursor as int,
                        k as int,
                        lookback,
                        #[trigger] ex[u],
                    );
                    assert(false);
                }
            }
        }
        best
    }


    /// Encodes message `i` against the index of messages `0..i`.
    fn encode_message(
        messages: &Vec<Vec<u8>>,
        prefixes: &Vec<(Vec<u64>, Vec<u64>)>,
        table: &HashMap<u64, Vec<(usize, usize)>>,
        i: usize,
        k: usize,
        lookback: Option<usize>,
    ) -> (r: Vec<Segment>)
        requires
            i < messages.len(),
            prefixes.len() == messages.len(),
            is_prefix_table(prefixes[i as int], messages[i as int]@),
            k >= 1,
            index_holds(table@, bytes_view(messages@), k as int, i as int, 0),
        ensures
            encodes(bytes_view(messages@), i as int, views(r@), k as int),
            hashed_encoding(bytes_view(messages@), i as int, views(r@), k as int, lookback),
    {
        let ghost msgs = bytes_view(messages@);
        let msg = messages[i].as_slice();
        assert(msg@ == msgs[i as int]);
        let mut segs: Vec<Segment> = Vec::new();
        let mut cursor: usize = 0;
        while cursor < msg.len()
            invariant
                i < messages.len(),
                prefixes.len() == messages.len(),
                is_prefix_table(prefixes[i as int], messages[i as int]@),
                k >= 1,
                index_holds(table@, msgs, k as int, i as int, 0),
                msgs == bytes_view(messages@),
                msg@ == msgs[i as int],
                cursor <= msg@.len(),
                offset(views(segs@), segs.len() as int) == cursor,
                encodes_prefix(msgs, i as int, views(segs@), k as int),
                hashed_encoding(msgs, i as int, views(segs@), k as int, lookback),
            decreases msg.len() - cursor,
        {
            let ghost old_view = views(segs@);
            let seg = match Self::best_candidate(
                messages,
                prefixes,
                table,
                i,
                cursor,
                k,
                lookback,
            ) {
                Some((len, j, s)) => {
                    proof {
                        lemma_lcp_agree(msgs[i as int], cursor as int, msgs[j as int], s as int);
                    }
                    Segment::Reference { message_idx: j, start: s, len }
                },
                None => {
                    let literal_end = literal_end_from(messages, prefixes, table, i, cursor, k);
                    Segment::Literal(slice_to_vec(&msg[cursor..literal_end]))
                },
            };
            let ghost sv = seg@;
            let step = match &seg {
                Segment::Literal(b) => b.len(),
                Segment::Reference { len, .. } => *len,
            };
            proof {
                assert(fits_at(msgs, i as int, cursor as int, k as int, sv));
                assert(hashed_segment(msgs, i as int, cursor as int, k as int, lookback, sv));
                lemma_encodes_push(msgs, i as int, k as int, old_view, sv);
            }
            segs.push(seg);
            proof {
                assert(views(segs@) =~= old_view.push(sv));
                lemma_hashed_push(msgs, i as int, k as int, lookback, old_view, sv);
            }
            cursor = cursor + step;
        }
        proof {
            lemma_encodes_complete(msgs, i as int, k as int, views(segs@));
        }
        segs
    }

    /// Builds the encoding of `messages` under `config`, indexing the windows of
    /// length `min_match_len` of each message before the next one is encoded.
    /// Candidates from messages beyond `lookback` are passed over.
    pub fn with_config(config: &GreedySubstringConfig, messages: &[&str]) -> (r: HashedGreedy)
        requires
            config.min_match_len >= 1,
        ensures
            r.wf(),
            r.messages_view() == bytes_of(messages@),
            r.min_match() == config.min_match_len,
            r.lookback() == config.lookback,
    {
        let k = config.min_match_len;
        let messages_vec = message_bytes(messages);
        let prefixes = prefix_tables(&messages_vec);
        let ghost msgs = bytes_view(messages_vec@);
        let mut table: HashMap<u64, Vec<(usize, usize)>> = HashMap::with_capacity(
            index_capacity(&messages_vec, k),
        );
        let mut inner: Vec<Vec<Segment>> = Vec::with_capacity(messages_vec.len());
        let mut i: usize = 0;
        proof {
            lemma_index_empty(msgs, k as int);
        }
        while i < messages_vec.len()
            invariant
                i <= messages_vec.len(),
                inner.len() == i,
                k == config.min_match_len,
                k >= 1,
                msgs == bytes_view(messages_vec@),
                tables_for(prefixes@, messages_vec@),
                i == 0 ==> index_holds(table@, msgs, k as int, 0, 0),
                i > 0 ==> index_holds(table@, msgs, k as int, i - 1, 0),
                forall|i2: int|
                    0 <= i2 < i ==> {
                        &&& encodes(msgs, i2, views(#[trigger] inner@[i2]@), k as int)
                        &&& hashed_encoding(msgs, i2, views(inner@[i2]@), k as int, config.lookback)
                    },
            decreases messages_vec.len() - i,
        {
            if i > 0 {
                insert_kmers_into_table(&mut table, &messages_vec, &prefixes, i - 1, k);
            }
            let segs = Self::encode_message(
                &messages_vec,
                &prefixes,
                &table,
                i,
                k,
                config.lookback,
            );
            inner.push(segs);
            i = i + 1;
        }
        HashedGreedy { inner, messages: messages_vec, config: *config }
    }
}

impl CopyForward for HashedGreedy {
    closed spec fn messages_view(&self) -> Seq<Seq<u8>> {
        bytes_view(self.messages@)
    }

    closed spec fn encoding_view(&self) -> Seq<Seq<SegmentView>> {
        segments_view(self.inner@)
    }

    closed spec fn min_match(&self) -> int {
        self.config.min_match_len as int
    }

    closed spec fn lookback(&self) -> Option<usize> {
        self.config.lookback
    }

    /// The encoding of every message is the one the hashed matcher builds.
    open spec fn wf(&self) -> bool {
        &&& self.min_match() >= 1
        &&& valid_encoding(self.messages_view(), self.encoding_view(), self.min_match())
        &&& forall|i: int|
            0 <= i < self.messages_view().len() ==> hashed_encoding(
                self.messages_view(),
                i,
                #[trigger] self.encoding_view()[i],
                self.min_match(),
                self.lookback(),
            )
    }

    proof fn lemma_wf_valid(&self) {
    }

    fn from_messages(messages: &[&str]) -> (r: HashedGreedy) {
        HashedGreedy::with_config(&GreedySubstringConfig::default(), messages)
    }

    fn segments(&self) -> (r: Vec<Vec<Segment>>) {
        copy_segments(&self.inner)
    }

    fn render_with<F: Fn(usize, usize, usize, &[u8]) -> Vec<u8>>(&self, replacer: F) -> (r: Vec<
        Vec<u8>,
    >) {
        proof {
            assert forall|i: int| 0 <= i < self.encoding_view().len() implies in_bounds(
                bytes_view(self.messages@),
                #[trigger] segments_view(self.inner@)[i],
                0,
            ) by {
                assert(encodes(self.messages_view(), i, self.encoding_view()[i], self.min_match()));
            }
        }
        render_segments(&self.messages, &self.inner, &replacer)
    }

    fn render_with_static(&self, replacement: &[u8]) -> (r: Vec<Vec<u8>>) {
        render_segments_marked(&self.inner, replacement)
    }
}

} // verus!
