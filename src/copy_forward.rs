//! The interface every matcher offers, and the laws that hold of all of them.
use crate::encoding::{
    bytes_of, causal, covers, encodes, in_bounds, lemma_encodes_fits, lemma_render_encodes, render,
    segments_view, span_text, valid_encoding, DEFAULT_MIN_MATCH_LEN, Segment, SegmentView,
};
use crate::render::{concat, piece_of, render_marked, rendered_with};
use vstd::prelude::*;

verus! {

/// What every matcher offers: construction from a thread of messages, the
/// encoding it built, and rendering of that encoding.
pub trait CopyForward: Sized {
    /// The bytes of the messages the matcher was built from.
    spec fn messages_view(&self) -> Seq<Seq<u8>>;

    /// The encoding: one sequence of segments per message.
    spec fn encoding_view(&self) -> Seq<Seq<SegmentView>>;

    /// The minimum reference length the matcher was built with.
    spec fn min_match(&self) -> int;

    /// How many preceding messages may be referenced (`None`: all of them).
    spec fn lookback(&self) -> Option<usize>;

    /// The matcher's invariant: the encoding that its own algorithm builds.
    spec fn wf(&self) -> bool;

    /// Whatever the algorithm, the encoding is valid.
    proof fn lemma_wf_valid(&self)
        requires
            self.wf(),
        ensures
            valid_encoding(self.messages_view(), self.encoding_view(), self.min_match()),
    ;

    /// Builds the encoding of `messages` with the default configuration.
    fn from_messages(messages: &[&str]) -> (r: Self)
        ensures
            r.wf(),
            r.messages_view() == bytes_of(messages@),
            r.min_match() == DEFAULT_MIN_MATCH_LEN,
            r.lookback() is None,
    ;

    /// A copy of the encoding.
    fn segments(&self) -> (r: Vec<Vec<Segment>>)
        requires
            self.wf(),
        ensures
            segments_view(r@) == self.encoding_view(),
    ;

    /// Renders each message: literals verbatim, and for each reference what
    /// `replacer(message_idx, start, len, referenced_text)` returns.
    fn render_with<F: Fn(usize, usize, usize, &[u8]) -> Vec<u8>>(&self, replacer: F) -> (r: Vec<
        Vec<u8>,
    >)
        requires
            self.wf(),
            forall|m: usize, s: usize, l: usize, t: &[u8]| call_requires(replacer, (m, s, l, t)),
        ensures
            r.len() == self.encoding_view().len(),
            forall|i: int|
                0 <= i < r.len() ==> rendered_with(
                    replacer,
                    self.messages_view(),
                    self.encoding_view()[i],
                    #[trigger] r[i]@,
                ),
    ;

    /// Renders each message with every reference replaced by `replacement`.
    fn render_with_static(&self, replacement: &[u8]) -> (r: Vec<Vec<u8>>)
        requires
            self.wf(),
        ensures
            r.len() == self.encoding_view().len(),
            forall|i: int|
                0 <= i < r.len() ==> (#[trigger] r[i])@ == render_marked(
                    self.encoding_view()[i],
                    replacement@,
                ),
    ;
}

proof fn lemma_concat_pieces(msgs: Seq<Seq<u8>>, segs: Seq<SegmentView>, pieces: Seq<Seq<u8>>)
    requires
        pieces.len() == segs.len(),
        forall|n: int| 0 <= n < segs.len() ==> #[trigger] pieces[n] == span_text(msgs, segs[n]),
    ensures
        concat(pieces) == render(msgs, segs),
    decreases segs.len(),
{
    if segs.len() > 0 {
        lemma_concat_pieces(msgs, segs.drop_last(), pieces.drop_last());
    }
}

/// Round trip: rendering any matcher's encoding with a replacer that hands
/// back the referenced text unchanged reproduces every message exactly.
pub proof fn lemma_round_trip<C: CopyForward, F: Fn(usize, usize, usize, &[u8]) -> Vec<u8>>(
    c: &C,
    replacer: F,
    out: Seq<Seq<u8>>,
)
    requires
        c.wf(),
        forall|m: usize, s: usize, l: usize, t: &[u8], r: Vec<u8>|
            call_ensures(replacer, (m, s, l, t), r) ==> r@ == t@,
        out.len() == c.encoding_view().len(),
        forall|i: int|
            0 <= i < out.len() ==> rendered_with(
                replacer,
                c.messages_view(),
                c.encoding_view()[i],
                #[trigger] out[i],
            ),
    ensures
        out == c.messages_view(),
{
    c.lemma_wf_valid();
    let msgs = c.messages_view();
    assert forall|i: int| 0 <= i < out.len() implies #[trigger] out[i] == msgs[i] by {
        let segs = c.encoding_view()[i];
        assert(encodes(msgs, i, segs, c.min_match()));
        let pieces = choose|pieces: Seq<Seq<u8>>|
            {
                &&& pieces.len() == segs.len()
                &&& forall|n: int|
                    0 <= n < segs.len() ==> piece_of(replacer, msgs, segs[n], #[trigger] pieces[n])
                &&& out[i] == concat(pieces)
            };
        assert forall|n: int| 0 <= n < segs.len() implies #[trigger] pieces[n] == span_text(
            msgs,
            segs[n],
        ) by {
            assert(piece_of(replacer, msgs, segs[n], pieces[n]));
        }
        lemma_concat_pieces(msgs, segs, pieces);
        lemma_render_encodes(msgs, i, segs, c.min_match());
    }
    assert(out =~= msgs);
}

/// Agreement across matchers: any two matchers built from the same messages
/// render the same text under a replacer that hands back the referenced text
/// unchanged, however differently they split the messages into segments.
pub proof fn lemma_render_agreement<
    A: CopyForward,
    B: CopyForward,
    F: Fn(usize, usize, usize, &[u8]) -> Vec<u8>,
>(a: &A, b: &B, replacer: F, out_a: Seq<Seq<u8>>, out_b: Seq<Seq<u8>>)
    requires
        a.wf(),
        b.wf(),
        a.messages_view() == b.messages_view(),
        forall|m: usize, s: usize, l: usize, t: &[u8], r: Vec<u8>|
            call_ensures(replacer, (m, s, l, t), r) ==> r@ == t@,
        out_a.len() == a.encoding_view().len(),
        forall|i: int|
            0 <= i < out_a.len() ==> rendered_with(
                replacer,
                a.messages_view(),
                a.encoding_view()[i],
                #[trigger] out_a[i],
            ),
        out_b.len() == b.encoding_view().len(),
        forall|i: int|
            0 <= i < out_b.len() ==> rendered_with(
                replacer,
                b.messages_view(),
                b.encoding_view()[i],
                #[trigger] out_b[i],
            ),
    ensures
        out_a == out_b,
{
    lemma_round_trip(a, replacer, out_a);
    lemma_round_trip(b, replacer, out_b);
}

/// Coverage, causality and bounds: in every matcher's encoding of message `i`
/// the segment lengths add up to the message's length with no gap or overlap,
/// every reference points into an earlier message, lies inside it, and is at
/// least the minimum match length long.
pub proof fn lemma_encoding_invariants<C: CopyForward>(c: &C, i: int)
    requires
        c.wf(),
        0 <= i < c.messages_view().len(),
    ensures
        c.encoding_view().len() == c.messages_view().len(),
        covers(c.messages_view(), i, c.encoding_view()[i]),
        causal(i, c.encoding_view()[i]),
        in_bounds(c.messages_view(), c.encoding_view()[i], c.min_match()),
{
    c.lemma_wf_valid();
}

/// Messages shorter than the minimum match length take part in no
/// reference: their own encoding is all literals, and no reference of any
/// message points into them.
pub proof fn lemma_short_message_unreferenced<C: CopyForward>(c: &C, i: int)
    requires
        c.wf(),
        0 <= i < c.messages_view().len(),
        c.messages_view()[i].len() < c.min_match(),
    ensures
        forall|n: int|
            0 <= n < c.encoding_view()[i].len() ==> (#[trigger] c.encoding_view()[i][n]) is Literal,
        forall|i2: int, n: int|
            #![trigger c.encoding_view()[i2][n]]
            0 <= i2 < c.encoding_view().len() && 0 <= n < c.encoding_view()[i2].len()
                ==> refers_not_to(c.encoding_view()[i2][n], i),
{
    c.lemma_wf_valid();
    let msgs = c.messages_view();
    let k = c.min_match();
    let segs = c.encoding_view();
    assert forall|n: int| 0 <= n < segs[i].len() implies (#[trigger] segs[i][n]) is Literal by {
        lemma_encodes_fits(msgs, i, k, segs[i], n);
    }
    assert forall|i2: int, n: int|
        #![trigger segs[i2][n]]
        0 <= i2 < segs.len() && 0 <= n < segs[i2].len() implies refers_not_to(segs[i2][n], i) by {
        assert(encodes(msgs, i2, segs[i2], k));
    }
}

/// `s` is not a reference into message `i`.
pub open spec fn refers_not_to(s: SegmentView, i: int) -> bool {
    match s {
        SegmentView::Reference { message_idx, .. } => message_idx != i,
        SegmentView::Literal(_) => true,
    }
}

} // verus!
