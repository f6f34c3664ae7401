//! The exhaustive matcher: at every cursor position it tries every start in
//! every eligible earlier message and keeps the longest match. Quadratic, and
//! the reference the faster matchers are measured against.
use crate::copy_forward::CopyForward;
use crate::encoding::{
    bytes_of, bytes_view, copy_segments, eligible, encodes, encodes_prefix, fits_at, in_bounds,
    lemma_encodes_complete, lemma_encodes_push, lemma_offset_push, offset, segments_view,
    valid_encoding, views, GreedySubstringConfig, Segment, SegmentView,
};
use crate::matching::{extend_match, lcp, lemma_lcp_agree};
use crate::render::{render_segments, render_segments_marked};
use vstd::prelude::*;
use vstd::slice::slice_to_vec;
use vstd::string::StringSliceAdditionalSpecFns;

verus! {

/// `(j, s)` is a start that the exhaustive scan tries for message `i`.
pub open spec fn is_candidate(
    msgs: Seq<Seq<u8>>,
    i: int,
    lookback: Option<usize>,
    j: int,
    s: int,
) -> bool {
    eligible(i, j, lookback) && 0 <= s < msgs[j].len()
}

/// `(j2, s2)` comes before `(j, s)` in scan order: lower message first, then
/// lower start.
pub open spec fn scanned_before(j2: int, s2: int, j: int, s: int) -> bool {
    j2 < j || (j2 == j && s2 < s)
}

/// Some candidate matches at least `k` bytes at offset `c` of message `i`.
pub open spec fn qualifies(
    msgs: Seq<Seq<u8>>,
    i: int,
    c: int,
    k: int,
    lookback: Option<usize>,
) -> bool {
    exists|j: int, s: int|
        is_candidate(msgs, i, lookback, j, s) && #[trigger] lcp(msgs[i], c, msgs[j], s) >= k
}

/// `(j, s)` gives the longest match at offset `c`, `len` bytes, and no
/// candidate before it in scan order matches as long: ties go to the first
/// found.
pub open spec fn longest_first(
    msgs: Seq<Seq<u8>>,
    i: int,
    c: int,
    lookback: Option<usize>,
    j: int,
    s: int,
    len: int,
) -> bool {
    &&& is_candidate(msgs, i, lookback, j, s)
    &&& len == lcp(msgs[i], c, msgs[j], s)
    &&& forall|j2: int, s2: int|
        is_candidate(msgs, i, lookback, j2, s2) ==> #[trigger] lcp(msgs[i], c, msgs[j2], s2) <= len
    &&& forall|j2: int, s2: int|
        is_candidate(msgs, i, lookback, j2, s2) && scanned_before(j2, s2, j, s) ==> #[trigger] lcp(
            msgs[i],
            c,
            msgs[j2],
            s2,
        ) < len
}

/// The segment that the exhaustive greedy scan emits at offset `c`: the
/// longest, first-found qualifying match, or else a literal that runs up to the
/// next offset where a qualifying match starts, or to the end of the message.
pub open spec fn greedy_segment(
    msgs: Seq<Seq<u8>>,
    i: int,
    c: int,
    k: int,
    lookback: Option<usize>,
    seg: SegmentView,
) -> bool {
    if qualifies(msgs, i, c, k, lookback) {
        match seg {
            SegmentView::Reference { message_idx, start, len } => longest_first(
                msgs,
                i,
                c,
                lookback,
                message_idx as int,
                start as int,
                len as int,
            ),
            SegmentView::Literal(_) => false,
        }
    } else {
        match seg {
            SegmentView::Literal(b) => {
                &&& forall|p: int|
                    c < p < c + b.len() ==> !#[trigger] qualifies(msgs, i, p, k, lookback)
                &&& (c + b.len() == msgs[i].len() || qualifies(msgs, i, c + b.len(), k, lookback))
            },
            SegmentView::Reference { .. } => false,
        }
    }
}

/// Every segment of `segs` is the one the greedy scan emits at its offset.
pub open spec fn greedy_encoding(
    msgs: Seq<Seq<u8>>,
    i: int,
    segs: Seq<SegmentView>,
    k: int,
    lookback: Option<usize>,
) -> bool {
    forall|n: int|
        0 <= n < segs.len() ==> greedy_segment(
            msgs,
            i,
            offset(segs, n),
            k,
            lookback,
            #[trigger] segs[n],
        )
}

/// Appending the segment emitted at the end of an encoded prefix keeps every
/// segment the one emitted at its offset.
proof fn lemma_greedy_push(
    msgs: Seq<Seq<u8>>,
    i: int,
    k: int,
    lookback: Option<usize>,
    segs: Seq<SegmentView>,
    x: SegmentView,
)
    requires
        greedy_encoding(msgs, i, segs, k, lookback),
        greedy_segment(msgs, i, offset(segs, segs.len() as int), k, lookback, x),
    ensures
        greedy_encoding(msgs, i, segs.push(x), k, lookback),
{
    let t = segs.push(x);
    assert forall|n: int| 0 <= n < t.len() implies greedy_segment(
        msgs,
        i,
        offset(t, n),
        k,
        lookback,
        #[trigger] t[n],
    ) by {
        lemma_offset_push(segs, x, n);
        if n < segs.len() {
            assert(t[n] == segs[n]);
        }
    }
}

/// Implementation that uses an exhaustive greedy substring matching strategy.
pub struct GreedySubstring {
    inner: Vec<Vec<Segment>>,
    messages: Vec<Vec<u8>>,
    pub config: GreedySubstringConfig,
}

/// Copies the bytes of each message.
pub fn message_bytes(messages: &[&str]) -> (r: Vec<Vec<u8>>)
    ensures
        bytes_view(r@) == bytes_of(messages@),
{
    let mut r: Vec<Vec<u8>> = Vec::with_capacity(messages.len());
    let mut i: usize = 0;
    while i < messages.len()
        invariant
            i <= messages.len(),
            r.len() == i,
            forall|i2: int| 0 <= i2 < i ==> (#[trigger] r@[i2])@ == messages@[i2].spec_bytes(),
        decreases messages.len() - i,
    {
        r.push(slice_to_vec(messages[i].as_bytes()));
        i = i + 1;
    }
    assert(bytes_view(r@) =~= bytes_of(messages@));
    r
}

/// Whether some candidate matches at least `k` bytes at offset `c` of message `i`.
fn has_match_at(
    messages: &Vec<Vec<u8>>,
    i: usize,
    c: usize,
    k: usize,
    lookback: Option<usize>,
) -> (r: bool)
    requires
        i < messages.len(),
        c < messages[i as int].len(),
        k >= 1,
    ensures
        r == qualifies(bytes_view(messages@), i as int, c as int, k as int, lookback),
{
    let ghost msgs = bytes_view(messages@);
    let msg = messages[i].as_slice();
    let mut j: usize = 0;
    while j < i
        invariant
            j <= i < messages.len(),
            msgs == bytes_view(messages@),
            msg@ == msgs[i as int],
            c < msg@.len(),
            k >= 1,
            forall|j2: int, s2: int|
                is_candidate(msgs, i as int, lookback, j2, s2) && j2 < j ==> #[trigger] lcp(
                    msgs[i as int],
                    c as int,
                    msgs[j2],
                    s2,
                ) < k,
        decreases i - j,
    {
        let skip = match lookback {
            Some(lb) => i - j > lb,
            None => false,
        };
        if !skip {
            let prev = messages[j].as_slice();
            assert(prev@ == msgs[j as int]);
            let mut s: usize = 0;
            while s < prev.len()
                invariant
                    j < i < messages.len(),
                    msgs == bytes_view(messages@),
                    msg@ == msgs[i as int],
                    prev@ == msgs[j as int],
                    c < msg@.len(),
                    k >= 1,
                    s <= prev@.len(),
                    eligible(i as int, j as int, lookback),
                    forall|j2: int, s2: int|
                        is_candidate(msgs, i as int, lookback, j2, s2) && scanned_before(
                            j2,
                            s2,
                            j as int,
                            s as int,
                        ) ==> #[trigger] lcp(msgs[i as int], c as int, msgs[j2], s2) < k,
                decreases prev.len() - s,
            {
                if msg[c] == prev[s] {
                    let len = extend_match(msg, c, prev, s, 0);
                    if len >= k {
                        assert(is_candidate(msgs, i as int, lookback, j as int, s as int));
                        return true;
                    }
                }
                s = s + 1;
            }
        } else {
            assert forall|s2: int| is_candidate(
                msgs,
                i as int,
                lookback,
                j as int,
                s2,
            ) implies false by {}
        }
        j = j + 1;
    }
    false
}

/// The longest match at offset `c` of message `i`, first found in scan order:
/// `(len, message_idx, start)`, or `None` when no candidate reaches `k` bytes.
fn longest_match_at(
    messages: &Vec<Vec<u8>>,
    i: usize,
    c: usize,
    k: usize,
    lookback: Option<usize>,
) -> (r: Option<(usize, usize, usize)>)
    requires
        i < messages.len(),
        c < messages[i as int].len(),
        k >= 1,
    ensures
        r is None <==> !qualifies(bytes_view(messages@), i as int, c as int, k as int, lookback),
        r matches Some((len, j, s)) ==> len >= k && longest_first(
            bytes_view(messages@),
            i as int,
            c as int,
            lookback,
            j as int,
            s as int,
            len as int,
        ),
{
    let ghost msgs = bytes_view(messages@);
    let msg = messages[i].as_slice();
    let mut best: Option<(usize, usize, usize)> = None;
    let mut j: usize = 0;
    while j < i
        invariant
            j <= i < messages.len(),
            msgs == bytes_view(messages@),
            msg@ == msgs[i as int],
            c < msg@.len(),
            k >= 1,
            best is None ==> forall|j2: int, s2: int|
                is_candidate(msgs, i as int, lookback, j2, s2) && j2 < j ==> #[trigger] lcp(
                    msgs[i as int],
                    c as int,
                    msgs[j2],
                    s2,
                ) < k,
            best matches Some((len, bj, bs)) ==> {
                &&& len >= k
                &&& bj < j
                &&& is_candidate(msgs, i as int, lookback, bj as int, bs as int)
                &&& len == lcp(msgs[i as int], c as int, msgs[bj as int], bs as int)
                &&& forall|j2: int, s2: int|
                    is_candidate(msgs, i as int, lookback, j2, s2) && j2 < j ==> #[trigger] lcp(
                        msgs[i as int],
                        c as int,
                        msgs[j2],
                        s2,
                    ) <= len
                &&& forall|j2: int, s2: int|
                    is_candidate(msgs, i as int, lookback, j2, s2) && scanned_before(
                        j2,
                        s2,
                        bj as int,
                        bs as int,
                    ) ==> #[trigger] lcp(msgs[i as int], c as int, msgs[j2], s2) < len
            },
        decreases i - j,
    {
        let skip = match lookback {
            Some(lb) => i - j > lb,
            None => false,
        };
        if !skip {
            let prev = messages[j].as_slice();
            assert(prev@ == msgs[j as int]);
            let mut s: usize = 0;
            while s < prev.len()
                invariant
                    j < i < messages.len(),
                    msgs == bytes_view(messages@),
                    msg@ == msgs[i as int],
                    prev@ == msgs[j as int],
                    c < msg@.len(),
                    k >= 1,
                    s <= prev@.len(),
                    eligible(i as int, j as int, lookback),
                    best is None ==> forall|j2: int, s2: int|
                        is_candidate(msgs, i as int, lookback, j2, s2) && scanned_before(
                            j2,
                            s2,
                            j as int,
                            s as int,
                        ) ==> #[trigger] lcp(msgs[i as int], c as int, msgs[j2], s2) < k,
                    best matches Some((len, bj, bs)) ==> {
                        &&& len >= k
                        &&& scanned_before(bj as int, bs as int, j as int, s as int)
                        &&& is_candidate(msgs, i as int, lookback, bj as int, bs as int)
                        &&& len == lcp(msgs[i as int], c as int, msgs[bj as int], bs as int)
                        &&& forall|j2: int, s2: int|
                            is_candidate(msgs, i as int, lookback, j2, s2) && scanned_before(
                                j2,
                                s2,
                                j as int,
                                s as int,
                            ) ==> #[trigger] lcp(msgs[i as int], c as int, msgs[j2], s2) <= len
                        &&& forall|j2: int, s2: int|
                            is_candidate(msgs, i as int, lookback, j2, s2) && scanned_before(
                                j2,
                                s2,
                                bj as int,
                                bs as int,
                            ) ==> #[trigger] lcp(msgs[i as int], c as int, msgs[j2], s2) < len
                    },
                decreases prev.len() - s,
            {
                let len = if msg[c] == prev[s] {
                    extend_match(msg, c, prev, s, 0)
                } else {
                    0
                };
                assert(len == lcp(msgs[i as int], c as int, msgs[j as int], s as int));
                if len >= k {
                    let better = match best {
                        None => true,
                        Some((best_len, _, _)) => len > best_len,
                    };
                    if better {
                        best = Some((len, j, s));
                    }
                }
                s = s + 1;
            }
        } else {
            assert forall|s2: int| is_candidate(
                msgs,
                i as int,
                lookback,
                j as int,
                s2,
            ) implies false by {}
        }
        j = j + 1;
    }
    best
}

/// Encodes message `i` by the exhaustive greedy scan.
fn encode_message(messages: &Vec<Vec<u8>>, i: usize, k: usize, lookback: Option<usize>) -> (r: Vec<
    Segment,
>)
    requires
        i < messages.len(),
        k >= 1,
    ensures
        encodes(bytes_view(messages@), i as int, views(r@), k as int),
        greedy_encoding(
            bytes_view(messages@),
            i as int,
            views(r@),
            k as int,
            lookback,
        ),
{
    let ghost msgs = bytes_view(messages@);
    let msg = messages[i].as_slice();
    let mut segs: Vec<Segment> = Vec::new();
    let mut cursor: usize = 0;
    while cursor < msg.len()
        invariant
            i < messages.len(),
            k >= 1,
            msgs == bytes_view(messages@),
            msg@ == msgs[i as int],
            cursor <= msg@.len(),
            offset(views(segs@), segs.len() as int) == cursor,
            encodes_prefix(msgs, i as int, views(segs@), k as int),
            greedy_encoding(msgs, i as int, views(segs@), k as int, lookback),
        decreases msg.len() - cursor,
    {
        let ghost old_view = views(segs@);
        let seg = match longest_match_at(messages, i, cursor, k, lookback) {
            Some((len, j, s)) => {
                proof {
                    lemma_lcp_agree(msgs[i as int], cursor as int, msgs[j as int], s as int);
                }
                Segment::Reference { message_idx: j, start: s, len }
            },
            None => {
                let mut literal_end = cursor + 1;
                while literal_end < msg.len() && !has_match_at(
                    messages,
                    i,
                    literal_end,
                    k,
                    lookback,
                )
                    invariant
                        i < messages.len(),
                        k >= 1,
                        msgs == bytes_view(messages@),
                        msg@ == msgs[i as int],
                        cursor < literal_end <= msg@.len(),
                        forall|p: int|
                            cursor < p < literal_end ==> !#[trigger] qualifies(
                                msgs,
                                i as int,
                                p,
                                k as int,
                                lookback,
                            ),
                    decreases msg.len() - literal_end,
                {
                    literal_end = literal_end + 1;
                }
                Segment::Literal(slice_to_vec(&msg[cursor..literal_end]))
            },
        };
        let ghost sv = seg@;
        let step = match &seg {
            Segment::Literal(b) => b.len(),
            Segment::Reference { len, .. } => *len,
        };
        proof {
            assert(fits_at(msgs, i as int, cursor as int, k as int, sv));
            assert(greedy_segment(msgs, i as int, cursor as int, k as int, lookback, sv));
            lemma_encodes_push(msgs, i as int, k as int, old_view, sv);
        }
        segs.push(seg);
        proof {
            assert(views(segs@) =~= old_view.push(sv));
            lemma_greedy_push(msgs, i as int, k as int, lookback, old_view, sv);
        }
        cursor = cursor + step;
    }
    proof {
        lemma_encodes_complete(msgs, i as int, k as int, views(segs@));
    }
    segs
}

impl GreedySubstring {
    /// Builds the encoding of `messages` under `config` by the exhaustive greedy scan.
    pub fn with_config(config: &GreedySubstringConfig, messages: &[&str]) -> (r: GreedySubstring)
        requires
            config.min_match_len >= 1,
        ensures
            r.wf(),
            r.messages_view() == bytes_of(messages@),
            r.min_match() == config.min_match_len,
            r.lookback() == config.lookback,
    {
        let messages_vec = message_bytes(messages);
        let mut inner: Vec<Vec<Segment>> = Vec::with_capacity(messages_vec.len());
        let mut i: usize = 0;
        while i < messages_vec.len()
            invariant
                i <= messages_vec.len(),
                inner.len() == i,
                config.min_match_len >= 1,
                forall|i2: int|
                    0 <= i2 < i ==> {
                        &&& encodes(
                            bytes_view(messages_vec@),
                            i2,
                            views(#[trigger] inner@[i2]@),
                            config.min_match_len as int,
                        )
                        &&& greedy_encoding(
                            bytes_view(messages_vec@),
                            i2,
                            views(inner@[i2]@),
                            config.min_match_len as int,
                            config.lookback,
                        )
                    },
            decreases messages_vec.len() - i,
        {
            let segs = encode_message(&messages_vec, i, config.min_match_len, config.lookback);
            inner.push(segs);
            i = i + 1;
        }
        GreedySubstring { inner, messages: messages_vec, config: *config }
    }
}

impl CopyForward for GreedySubstring {
    closed spec fn messages_view(&self) -> Seq<Seq<u8>> {
        bytes_view(self.messages@)
    }

    closed spec fn encoding_view(&self) -> Seq<Seq<SegmentView>> {
        segments_view(self.inner@)
    }

    closed spec fn min_match(&self) -> int {
        self.config.min_match_len as int
    }

    closed spec fn lookback(&self) -> Option<usize> {
        self.config.lookback
    }

    /// The encoding of every message is the exhaustive greedy one.
    open spec fn wf(&self) -> bool {
        &&& self.min_match() >= 1
        &&& valid_encoding(self.messages_view(), self.encoding_view(), self.min_match())
        &&& forall|i: int|
            0 <= i < self.messages_view().len() ==> greedy_encoding(
                self.messages_view(),
                i,
                #[trigger] self.encoding_view()[i],
                self.min_match(),
                self.lookback(),
            )
    }

    proof fn lemma_wf_valid(&self) {
    }

    fn from_messages(messages: &[&str]) -> (r: GreedySubstring) {
        GreedySubstring::with_config(&GreedySubstringConfig::default(), messages)
    }

    fn segments(&self) -> (r: Vec<Vec<Segment>>) {
        copy_segments(&self.inner)
    }

    fn render_with<F: Fn(usize, usize, usize, &[u8]) -> Vec<u8>>(&self, replacer: F) -> (r: Vec<
        Vec<u8>,
    >) {
        proof {
            assert forall|i: int| 0 <= i < self.encoding_view().len() implies in_bounds(
                bytes_view(self.messages@),
                #[trigger] segments_view(self.inner@)[i],
                0,
            ) by {
                assert(encodes(self.messages_view(), i, self.encoding_view()[i], self.min_match()));
            }
        }
        render_segments(&self.messages, &self.inner, &replacer)
    }

    fn render_with_static(&self, replacement: &[u8]) -> (r: Vec<Vec<u8>>) {
        render_segments_marked(&self.inner, replacement)
    }
}

} // verus!
