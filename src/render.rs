//! Rendering an encoding back to bytes, with a caller's replacer for the
//! references or a fixed marker.
use crate::encoding::{bytes_view, in_bounds, segments_view, span_text, views, Segment, SegmentView};
use vstd::prelude::*;
use vstd::slice::slice_to_vec;

verus! {

/// Concatenation of a sequence of byte strings.
pub open spec fn concat(pieces: Seq<Seq<u8>>) -> Seq<u8>
    decreases pieces.len(),
{
    if pieces.len() == 0 {
        Seq::empty()
    } else {
        concat(pieces.drop_last()) + pieces.last()
    }
}

/// `piece` is what rendering may put in place of segment `s`: a literal's own
/// bytes, or a result that `f` may return for the reference and the text it names.
pub open spec fn piece_of<F: Fn(usize, usize, usize, &[u8]) -> Vec<u8>>(
    f: F,
    msgs: Seq<Seq<u8>>,
    s: SegmentView,
    piece: Seq<u8>,
) -> bool {
    match s {
        SegmentView::Literal(b) => piece == b,
        SegmentView::Reference { message_idx, start, len } => exists|text: &[u8], out: Vec<u8>|
            #![trigger call_ensures(f, (message_idx, start, len, text), out)]
            {
                &&& text@ == span_text(msgs, s)
                &&& call_ensures(f, (message_idx, start, len, text), out)
                &&& out@ == piece
            },
    }
}

/// `out` is a rendering of `segs` with `f`: one piece per segment, concatenated.
pub open spec fn rendered_with<F: Fn(usize, usize, usize, &[u8]) -> Vec<u8>>(
    f: F,
    msgs: Seq<Seq<u8>>,
    segs: Seq<SegmentView>,
    out: Seq<u8>,
) -> bool {
    exists|pieces: Seq<Seq<u8>>|
        {
            &&& pieces.len() == segs.len()
            &&& forall|n: int|
                0 <= n < segs.len() ==> piece_of(f, msgs, segs[n], #[trigger] pieces[n])
            &&& out == concat(pieces)
        }
}

/// Rendering of `segs` with every reference replaced by `marker`.
pub open spec fn render_marked(segs: Seq<SegmentView>, marker: Seq<u8>) -> Seq<u8>
    decreases segs.len(),
{
    if segs.len() == 0 {
        Seq::empty()
    } else {
        render_marked(segs.drop_last(), marker) + match segs.last() {
            SegmentView::Literal(b) => b,
            SegmentView::Reference { .. } => marker,
        }
    }
}

/// The references of every message can be resolved.
pub open spec fn resolvable(msgs: Seq<Seq<u8>>, segs: Seq<Seq<SegmentView>>) -> bool {
    forall|i: int| 0 <= i < segs.len() ==> in_bounds(msgs, #[trigger] segs[i], 0)
}

/// Renders every message: literals verbatim, each reference replaced by what
/// `replacer` returns for it and the text it names.
pub fn render_segments<F: Fn(usize, usize, usize, &[u8]) -> Vec<u8>>(
    messages: &Vec<Vec<u8>>,
    segs: &Vec<Vec<Segment>>,
    replacer: &F,
) -> (out: Vec<Vec<u8>>)
    requires
        resolvable(bytes_view(messages@), segments_view(segs@)),
        forall|m: usize, s: usize, l: usize, t: &[u8]| call_requires(*replacer, (m, s, l, t)),
    ensures
        out.len() == segs.len(),
        forall|i: int|
            0 <= i < out.len() ==> rendered_with(
                *replacer,
                bytes_view(messages@),
                segments_view(segs@)[i],
                #[trigger] out[i]@,
            ),
{
    let ghost msgs = bytes_view(messages@);
    let ghost sv = segments_view(segs@);
    let mut out: Vec<Vec<u8>> = Vec::with_capacity(segs.len());
    let mut i: usize = 0;
    while i < segs.len()
        invariant
            i <= segs.len(),
            out.len() == i,
            msgs == bytes_view(messages@),
            sv == segments_view(segs@),
            resolvable(msgs, sv),
            forall|m: usize, s: usize, l: usize, t: &[u8]| call_requires(*replacer, (m, s, l, t)),
            forall|i2: int| 0 <= i2 < i ==> rendered_with(
                *replacer,
                msgs,
                sv[i2],
                #[trigger] out[i2]@,
            ),
        decreases segs.len() - i,
    {
        let row = &segs[i];
        let ghost segs_i = sv[i as int];
        assert(in_bounds(msgs, segs_i, 0));
        let mut s: Vec<u8> = Vec::new();
        let ghost mut pieces: Seq<Seq<u8>> = Seq::empty();
        let mut n: usize = 0;
        while n < row.len()
            invariant
                n <= row.len(),
                segs_i == views(row@),
                msgs == bytes_view(messages@),
                in_bounds(msgs, segs_i, 0),
                forall|m: usize, s: usize, l: usize, t: &[u8]| call_requires(
                    *replacer,
                    (m, s, l, t),
                ),
                pieces.len() == n,
                forall|n2: int| 0 <= n2 < n ==> piece_of(
                    *replacer,
                    msgs,
                    segs_i[n2],
                    #[trigger] pieces[n2],
                ),
                s@ == concat(pieces),
            decreases row.len() - n,
        {
            assert(segs_i[n as int] == row[n as int]@);
            let ghost prev = pieces;
            match &row[n] {
                Segment::Literal(l) => {
                    let mut copy = slice_to_vec(l.as_slice());
                    proof {
                        pieces = pieces.push(l@);
                    }
                    s.append(&mut copy);
                },
                Segment::Reference { message_idx, start, len } => {
                    proof {
                        let j = *message_idx as int;
                        assert(segs_i[n as int] == SegmentView::Reference {
                            message_idx: *message_idx,
                            start: *start,
                            len: *len,
                        });
                        assert(j < msgs.len());
                        assert(msgs[j] == messages@[j]@);
                        assert(*start + *len <= messages@[j].len());
                    }
                    let text = &messages[*message_idx][*start..*start + *len];
                    let mut rep = replacer(*message_idx, *start, *len, text);
                    proof {
                        assert(text@ == span_text(msgs, segs_i[n as int]));
                        assert(piece_of(*replacer, msgs, segs_i[n as int], rep@));
                        pieces = pieces.push(rep@);
                    }
                    s.append(&mut rep);
                },
            }
            proof {
                assert(pieces.drop_last() =~= prev);
                assert forall|n2: int| 0 <= n2 < n + 1 implies piece_of(
                    *replacer,
                    msgs,
                    segs_i[n2],
                    #[trigger] pieces[n2],
                ) by {}
            }
            n = n + 1;
        }
        proof {
            assert(segs_i.len() == row.len());
        }
        out.push(s);
        i = i + 1;
    }
    out
}

/// Renders every message with each reference replaced by `marker`.
pub fn render_segments_marked(segs: &Vec<Vec<Segment>>, marker: &[u8]) -> (out: Vec<Vec<u8>>)
    ensures
        out.len() == segs.len(),
        forall|i: int|
            0 <= i < out.len() ==> (#[trigger] out[i])@ == render_marked(
                segments_view(segs@)[i],
                marker@,
            ),
{
    let ghost sv = segments_view(segs@);
    let mut out: Vec<Vec<u8>> = Vec::with_capacity(segs.len());
    let mut i: usize = 0;
    while i < segs.len()
        invariant
            i <= segs.len(),
            out.len() == i,
            sv == segments_view(segs@),
            forall|i2: int| 0 <= i2 < i ==> (#[trigger] out[i2])@ == render_marked(sv[i2], marker@),
        decreases segs.len() - i,
    {
        let row = &segs[i];
        let ghost segs_i = sv[i as int];
        let mut s: Vec<u8> = Vec::new();
        let mut n: usize = 0;
        while n < row.len()
            invariant
                n <= row.len(),
                segs_i == views(row@),
                s@ == render_marked(segs_i.take(n as int), marker@),
            decreases row.len() - n,
        {
            assert(segs_i.take(n + 1).drop_last() =~= segs_i.take(n as int));
            assert(segs_i[n as int] == row[n as int]@);
            match &row[n] {
                Segment::Literal(l) => {
                    let mut copy = slice_to_vec(l.as_slice());
                    s.append(&mut copy);
                },
                Segment::Reference { .. } => {
                    let mut copy = slice_to_vec(marker);
                    s.append(&mut copy);
                },
            }
            n = n + 1;
        }
        assert(segs_i.take(row.len() as int) =~= segs_i);
        out.push(s);
        i = i + 1;
    }
    out
}

} // verus!
