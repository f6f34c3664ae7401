//! The segment model shared by every matcher: segments, the configuration,
//! what makes a sequence of segments a valid encoding of a message, and the
//! lemmas that build valid encodings one segment at a time.
use vstd::prelude::*;
use vstd::slice::slice_to_vec;
use vstd::string::StringSliceAdditionalSpecFns;

verus! {

/// One span of a message's encoding.
#[derive(Debug, Clone, PartialEq, Eq)]
pub enum Segment {
    /// Bytes copied verbatim.
    Literal(Vec<u8>),
    /// `len` bytes starting at byte `start` of the earlier message `message_idx`.
    Reference { message_idx: usize, start: usize, len: usize },
}

/// The mathematical value of a [`Segment`].
pub enum SegmentView {
    Literal(Seq<u8>),
    Reference { message_idx: usize, start: usize, len: usize },
}

impl View for Segment {
    type V = SegmentView;

    open spec fn view(&self) -> SegmentView {
        match self {
            Segment::Literal(b) => SegmentView::Literal(b@),
            Segment::Reference { message_idx, start, len } => SegmentView::Reference {
                message_idx: *message_idx,
                start: *start,
                len: *len,
            },
        }
    }
}

/// Configuration shared by all matchers.
#[derive(Debug, Clone, Copy)]
pub struct GreedySubstringConfig {
    /// Shortest match that may become a reference.
    pub min_match_len: usize,
    /// Only the `lookback` immediately preceding messages may be referenced
    /// (`None`: every earlier message).
    pub lookback: Option<usize>,
}

/// The threshold used by `from_messages`.
pub const DEFAULT_MIN_MATCH_LEN: usize = 4;

impl Default for GreedySubstringConfig {
    fn default() -> (r: Self)
        ensures
            r.min_match_len == DEFAULT_MIN_MATCH_LEN,
            r.lookback is None,
    {
        GreedySubstringConfig { min_match_len: DEFAULT_MIN_MATCH_LEN, lookback: None }
    }
}

/// The bytes of each message.
pub open spec fn bytes_of(messages: Seq<&str>) -> Seq<Seq<u8>> {
    messages.map_values(|m: &str| m.spec_bytes())
}

/// The bytes of each message held as a vector.
pub open spec fn bytes_view(v: Seq<Vec<u8>>) -> Seq<Seq<u8>> {
    v.map_values(|m: Vec<u8>| m@)
}

/// The views of a sequence of segments.
pub open spec fn views(v: Seq<Segment>) -> Seq<SegmentView> {
    v.map_values(|x: Segment| x@)
}

/// The views of a nested vector of segments.
pub open spec fn segments_view(v: Seq<Vec<Segment>>) -> Seq<Seq<SegmentView>> {
    v.map_values(|s: Vec<Segment>| views(s@))
}

/// Number of message bytes a segment stands for.
pub open spec fn span_len(s: SegmentView) -> int {
    match s {
        SegmentView::Literal(b) => b.len() as int,
        SegmentView::Reference { len, .. } => len as int,
    }
}

/// The bytes a segment stands for, given the thread.
pub open spec fn span_text(msgs: Seq<Seq<u8>>, s: SegmentView) -> Seq<u8> {
    match s {
        SegmentView::Literal(b) => b,
        SegmentView::Reference { message_idx, start, len } => msgs[message_idx as int].subrange(
            start as int,
            start + len,
        ),
    }
}

/// Byte offset at which segment `n` begins: the lengths of the segments before it.
pub open spec fn offset(segs: Seq<SegmentView>, n: int) -> int
    decreases n,
{
    if n <= 0 {
        0
    } else {
        offset(segs, n - 1) + span_len(segs[n - 1])
    }
}

/// Concatenation of the texts of the segments.
pub open spec fn render(msgs: Seq<Seq<u8>>, segs: Seq<SegmentView>) -> Seq<u8>
    decreases segs.len(),
{
    if segs.len() == 0 {
        Seq::empty()
    } else {
        render(msgs, segs.drop_last()) + span_text(msgs, segs.last())
    }
}

/// The segments are non-empty, in order and without gaps, and together exactly
/// as long as message `i`.
pub open spec fn covers(msgs: Seq<Seq<u8>>, i: int, segs: Seq<SegmentView>) -> bool {
    &&& offset(segs, segs.len() as int) == msgs[i].len()
    &&& forall|n: int| 0 <= n < segs.len() ==> span_len(#[trigger] segs[n]) > 0
}

/// Every reference of message `i` points into a strictly earlier message.
pub open spec fn causal(i: int, segs: Seq<SegmentView>) -> bool {
    forall|n: int|
        0 <= n < segs.len() ==> match #[trigger] segs[n] {
            SegmentView::Reference { message_idx, .. } => message_idx < i,
            SegmentView::Literal(_) => true,
        }
}

/// Every reference lies inside its source message and is at least `k` long.
pub open spec fn in_bounds(msgs: Seq<Seq<u8>>, segs: Seq<SegmentView>, k: int) -> bool {
    forall|n: int|
        0 <= n < segs.len() ==> match #[trigger] segs[n] {
            SegmentView::Reference { message_idx, start, len } => {
                &&& message_idx < msgs.len()
                &&& start + len <= msgs[message_idx as int].len()
                &&& len >= k
            },
            SegmentView::Literal(_) => true,
        }
}

/// Every segment stands for exactly the bytes of message `i` at its offset.
pub open spec fn faithful(msgs: Seq<Seq<u8>>, i: int, segs: Seq<SegmentView>) -> bool {
    forall|n: int|
        0 <= n < segs.len() ==> span_text(msgs, #[trigger] segs[n]) == msgs[i].subrange(
            offset(segs, n),
            offset(segs, n) + span_len(segs[n]),
        )
}

/// A valid encoding of message `i`.
pub open spec fn encodes(msgs: Seq<Seq<u8>>, i: int, segs: Seq<SegmentView>, k: int) -> bool {
    &&& covers(msgs, i, segs)
    &&& causal(i, segs)
    &&& in_bounds(msgs, segs, k)
    &&& faithful(msgs, i, segs)
}

/// A valid encoding of the whole thread.
pub open spec fn valid_encoding(msgs: Seq<Seq<u8>>, segs: Seq<Seq<SegmentView>>, k: int) -> bool {
    &&& segs.len() == msgs.len()
    &&& forall|i: int| 0 <= i < msgs.len() ==> encodes(msgs, i, #[trigger] segs[i], k)
}

/// Message `j` may be referenced from message `i` under `lookback`.
pub open spec fn eligible(i: int, j: int, lookback: Option<usize>) -> bool {
    &&& 0 <= j < i
    &&& match lookback {
        Some(lb) => i - j <= lb,
        None => true,
    }
}

/// `segs` encodes a prefix of message `i`: everything `encodes` asks but that
/// the segments reach the end of the message.
pub open spec fn encodes_prefix(
    msgs: Seq<Seq<u8>>,
    i: int,
    segs: Seq<SegmentView>,
    k: int,
) -> bool {
    &&& offset(segs, segs.len() as int) <= msgs[i].len()
    &&& forall|n: int| 0 <= n < segs.len() ==> span_len(#[trigger] segs[n]) > 0
    &&& causal(i, segs)
    &&& in_bounds(msgs, segs, k)
    &&& faithful(msgs, i, segs)
}

/// Segment `x` may stand at offset `c` of message `i`.
pub open spec fn fits_at(msgs: Seq<Seq<u8>>, i: int, c: int, k: int, x: SegmentView) -> bool {
    &&& span_len(x) > 0
    &&& c + span_len(x) <= msgs[i].len()
    &&& match x {
        SegmentView::Reference { message_idx, start, len } => {
            &&& message_idx < i
            &&& message_idx < msgs.len()
            &&& start + len <= msgs[message_idx as int].len()
            &&& len >= k
        },
        SegmentView::Literal(_) => true,
    }
    &&& span_text(msgs, x) == msgs[i].subrange(c, c + span_len(x))
}

pub proof fn lemma_offset_push(segs: Seq<SegmentView>, x: SegmentView, n: int)
    requires
        0 <= n <= segs.len(),
    ensures
        offset(segs.push(x), n) == offset(segs, n),
    decreases n,
{
    if n > 0 {
        lemma_offset_push(segs, x, n - 1);
    }
}

pub proof fn lemma_offset_monotone(segs: Seq<SegmentView>, a: int, b: int)
    requires
        0 <= a <= b <= segs.len(),
        forall|n: int| 0 <= n < segs.len() ==> span_len(#[trigger] segs[n]) > 0,
    ensures
        offset(segs, a) <= offset(segs, b),
    decreases b - a,
{
    if a < b {
        lemma_offset_monotone(segs, a, b - 1);
    }
}

proof fn lemma_offset_take(segs: Seq<SegmentView>, n: int, m: int)
    requires
        0 <= m <= n <= segs.len(),
    ensures
        offset(segs.take(n), m) == offset(segs, m),
    decreases m,
{
    if m > 0 {
        lemma_offset_take(segs, n, m - 1);
    }
}

/// Rendering the first `n` segments of a valid encoding gives the first
/// `offset(segs, n)` bytes of the message.
proof fn lemma_render_prefix(msgs: Seq<Seq<u8>>, i: int, segs: Seq<SegmentView>, k: int, n: int)
    requires
        0 <= i < msgs.len(),
        encodes(msgs, i, segs, k),
        0 <= n <= segs.len(),
    ensures
        offset(segs, n) <= msgs[i].len(),
        render(msgs, segs.take(n)) == msgs[i].subrange(0, offset(segs, n)),
    decreases n,
{
    lemma_offset_monotone(segs, n, segs.len() as int);
    if n > 0 {
        lemma_render_prefix(msgs, i, segs, k, n - 1);
        lemma_offset_monotone(segs, n - 1, n);
        lemma_offset_monotone(segs, 0, n - 1);
        assert(segs.take(n).drop_last() == segs.take(n - 1));
        assert(offset(segs.take(n), n) == offset(segs, n)) by {
            lemma_offset_take(segs, n, n);
        }
        let a = msgs[i].subrange(0, offset(segs, n - 1));
        let b = msgs[i].subrange(offset(segs, n - 1), offset(segs, n));
        assert(msgs[i].subrange(0, offset(segs, n)) =~= a + b);
    } else {
        assert(segs.take(0) == Seq::<SegmentView>::empty());
    }
}

/// Rendering a valid encoding of message `i`, each reference resolved to the
/// text it names, gives message `i` back byte for byte.
pub proof fn lemma_render_encodes(msgs: Seq<Seq<u8>>, i: int, segs: Seq<SegmentView>, k: int)
    requires
        0 <= i < msgs.len(),
        encodes(msgs, i, segs, k),
    ensures
        render(msgs, segs) == msgs[i],
{
    lemma_render_prefix(msgs, i, segs, k, segs.len() as int);
    assert(segs.take(segs.len() as int) == segs);
    assert(msgs[i].subrange(0, msgs[i].len() as int) == msgs[i]);
}

pub proof fn lemma_encodes_push(
    msgs: Seq<Seq<u8>>,
    i: int,
    k: int,
    segs: Seq<SegmentView>,
    x: SegmentView,
)
    requires
        encodes_prefix(msgs, i, segs, k),
        fits_at(msgs, i, offset(segs, segs.len() as int), k, x),
    ensures
        encodes_prefix(msgs, i, segs.push(x), k),
        offset(segs.push(x), segs.len() + 1 as int) == offset(
            segs,
            segs.len() as int,
        ) + span_len(x),
        forall|n: int| 0 <= n <= segs.len() ==> #[trigger] offset(
            segs.push(x),
            n,
        ) == offset(segs, n),
{
    let t = segs.push(x);
    assert forall|n: int| 0 <= n <= segs.len() implies #[trigger] offset(t, n) == offset(
        segs,
        n,
    ) by {
        lemma_offset_push(segs, x, n);
    }
    let len = segs.len() as int;
    assert(t[len] == x);
    assert(offset(t, len + 1) == offset(t, len) + span_len(t[len]));
    assert(forall|n: int| 0 <= n < len ==> t[n] == segs[n]);
    assert forall|n: int| 0 <= n < t.len() implies span_text(
        msgs,
        #[trigger] t[n],
    ) == msgs[i].subrange(
        offset(t, n),
        offset(t, n) + span_len(t[n]),
    ) by {
        if n < len {
            assert(t[n] == segs[n]);
        }
    }
    assert(causal(i, t)) by {
        assert forall|n: int| 0 <= n < t.len() implies match #[trigger] t[n] {
            SegmentView::Reference { message_idx, .. } => message_idx < i,
            SegmentView::Literal(_) => true,
        } by {
            if n < len {
                assert(t[n] == segs[n]);
            }
        }
    }
    assert(in_bounds(msgs, t, k)) by {
        assert forall|n: int| 0 <= n < t.len() implies match #[trigger] t[n] {
            SegmentView::Reference { message_idx, start, len } => {
                &&& message_idx < msgs.len()
                &&& start + len <= msgs[message_idx as int].len()
                &&& len >= k
            },
            SegmentView::Literal(_) => true,
        } by {
            if n < len {
                assert(t[n] == segs[n]);
            }
        }
    }
}

pub proof fn lemma_encodes_complete(msgs: Seq<Seq<u8>>, i: int, k: int, segs: Seq<SegmentView>)
    requires
        encodes_prefix(msgs, i, segs, k),
        offset(segs, segs.len() as int) == msgs[i].len(),
    ensures
        encodes(msgs, i, segs, k),
{
}

/// The last segment of an encoded prefix fits where the others end.
pub proof fn lemma_encodes_pop(msgs: Seq<Seq<u8>>, i: int, k: int, segs: Seq<SegmentView>)
    requires
        encodes_prefix(msgs, i, segs, k),
        segs.len() > 0,
    ensures
        encodes_prefix(msgs, i, segs.drop_last(), k),
        fits_at(msgs, i, offset(segs.drop_last(), segs.len() - 1), k, segs.last()),
        offset(segs, segs.len() as int) == offset(segs.drop_last(), segs.len() - 1) + span_len(
            segs.last(),
        ),
{
    let p = segs.drop_last();
    let len = p.len() as int;
    assert(segs == p.push(segs.last()));
    assert forall|n: int| 0 <= n <= len implies #[trigger] offset(segs, n) == offset(p, n) by {
        lemma_offset_push(p, segs.last(), n);
    }
    assert(forall|n: int| 0 <= n < len ==> p[n] == segs[n]);
    assert(segs[len] == segs.last());
    lemma_offset_monotone(segs, len, len + 1);
    assert forall|n: int| 0 <= n < p.len() implies span_text(
        msgs,
        #[trigger] p[n],
    ) == msgs[i].subrange(
        offset(p, n),
        offset(p, n) + span_len(p[n]),
    ) by {
        assert(segs[n] == p[n]);
    }
    assert(causal(i, p)) by {
        assert forall|n: int| 0 <= n < p.len() implies match #[trigger] p[n] {
            SegmentView::Reference { message_idx, .. } => message_idx < i,
            SegmentView::Literal(_) => true,
        } by {
            assert(segs[n] == p[n]);
        }
    }
    assert(in_bounds(msgs, p, k)) by {
        assert forall|n: int| 0 <= n < p.len() implies match #[trigger] p[n] {
            SegmentView::Reference { message_idx, start, len } => {
                &&& message_idx < msgs.len()
                &&& start + len <= msgs[message_idx as int].len()
                &&& len >= k
            },
            SegmentView::Literal(_) => true,
        } by {
            assert(segs[n] == p[n]);
        }
    }
    lemma_offset_monotone(segs, 0, len);
}

/// Each segment of a valid encoding fits at its offset.
pub proof fn lemma_encodes_fits(msgs: Seq<Seq<u8>>, i: int, k: int, segs: Seq<SegmentView>, n: int)
    requires
        encodes(msgs, i, segs, k),
        0 <= n < segs.len(),
    ensures
        fits_at(msgs, i, offset(segs, n), k, segs[n]),
        0 <= offset(segs, n),
{
    lemma_offset_monotone(segs, n + 1, segs.len() as int);
    lemma_offset_monotone(segs, 0, n);
}

/// A copy of a segment.
pub fn copy_segment(s: &Segment) -> (r: Segment)
    ensures
        r@ == s@,
{
    match s {
        Segment::Literal(b) => Segment::Literal(slice_to_vec(b.as_slice())),
        Segment::Reference { message_idx, start, len } => Segment::Reference {
            message_idx: *message_idx,
            start: *start,
            len: *len,
        },
    }
}

/// A copy of an encoding.
pub fn copy_segments(v: &Vec<Vec<Segment>>) -> (r: Vec<Vec<Segment>>)
    ensures
        segments_view(r@) == segments_view(v@),
{
    let mut r: Vec<Vec<Segment>> = Vec::with_capacity(v.len());
    let mut i: usize = 0;
    while i < v.len()
        invariant
            i <= v.len(),
            r.len() == i,
            forall|i2: int| 0 <= i2 < i ==> views(#[trigger] r@[i2]@) == views(v@[i2]@),
        decreases v.len() - i,
    {
        let row = &v[i];
        let mut out: Vec<Segment> = Vec::with_capacity(row.len());
        let mut n: usize = 0;
        while n < row.len()
            invariant
                n <= row.len(),
                out.len() == n,
                forall|n2: int| 0 <= n2 < n ==> (#[trigger] out@[n2])@ == row@[n2]@,
            decreases row.len() - n,
        {
            out.push(copy_segment(&row[n]));
            n = n + 1;
        }
        assert(views(out@) =~= views(row@));
        r.push(out);
        i = i + 1;
    }
    assert(segments_view(r@) =~= segments_view(v@));
    r
}

} // verus!
